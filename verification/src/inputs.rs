//! Which files a command works on, and how.

use vstd::prelude::*;
use vstd::slice::slice_to_vec;

use crate::bytes::views;
use crate::order::covers;
use crate::order::is_path_order;
use crate::order::law_different_paths_ascend;
use crate::order::path_order;
use crate::order::path_precedes;
use crate::order::path_views;
use crate::order::sort_paths;
use crate::path_laws::is_cut;
use crate::path_laws::law_packed_files_end_in_ts;
use crate::path_laws::spells_ts;
use crate::paths::is_ts_path;
use crate::paths::looks_like_file_output;
use crate::paths::FilePath;
use crate::paths::PathView;

verus! {

/// The command that inputs are looked for.
#[derive(Clone, Copy, Debug, PartialEq, Eq, Structural)]
pub enum InputKind {
    Pack,
    Extract,
}

/// What the file system says of a path.
#[derive(Clone, Copy, Debug, PartialEq, Eq, Structural)]
pub enum EntryKind {
    Dir,
    File,
    Other,
}

/// Why there is nothing to work on.
#[derive(Clone, Copy, Debug, PartialEq, Eq, Structural)]
pub enum InputError {
    /// The input is neither a file nor a directory.
    NotFileOrDirectory,
    /// No file was found for this command.
    NothingFound(InputKind),
}

/// A file or directory that was found, with what a directory holds.
pub struct DirNode {
    /// What the caller knows it by.
    pub id: usize,
    /// Its path.
    pub path: FilePath,
    /// The components of its path.
    pub parts: Vec<Vec<u8>>,
    /// What it is. A link to something is not that thing.
    pub kind: EntryKind,
    /// What it holds, where it is a directory that was read.
    pub children: Vec<DirNode>,
}

/// A file to work on.
pub struct FoundInput {
    pub id: usize,
    pub parts: Vec<Vec<u8>>,
}

impl View for FoundInput {
    type V = (usize, Seq<Seq<u8>>);

    open spec fn view(&self) -> (usize, Seq<Seq<u8>>) {
        (self.id, views(self.parts@))
    }
}

/// The contents of a list of files.
pub open spec fn found_views(found: Seq<FoundInput>) -> Seq<(usize, Seq<Seq<u8>>)> {
    found.map_values(|f: FoundInput| f@)
}

/// Whether a file is an input for a command: any file can be packed, and files
/// with the extension `.ts`, in any case, can be extracted.
pub open spec fn wanted(path: PathView, kind: InputKind) -> bool {
    match kind {
        InputKind::Pack => true,
        InputKind::Extract => is_ts_path(path),
    }
}

/// The inputs among some entries and, where `recursive`, in the directories
/// among them at any depth.
pub open spec fn inputs_in(nodes: Seq<DirNode>, recursive: bool, kind: InputKind) -> Seq<
    (usize, Seq<Seq<u8>>),
>
    decreases nodes,
{
    if nodes.len() == 0 {
        Seq::empty()
    } else {
        let last = nodes.last();
        inputs_in(nodes.drop_last(), recursive, kind) + match last.kind {
            EntryKind::Dir => if recursive {
                inputs_in(last.children@, recursive, kind)
            } else {
                Seq::empty()
            },
            EntryKind::File => if wanted(last.path@, kind) {
                seq![(last.id, views(last.parts@))]
            } else {
                Seq::empty()
            },
            EntryKind::Other => Seq::empty(),
        }
    }
}

/// A copy of the components of a path.
fn copy_parts(parts: &Vec<Vec<u8>>) -> (copy: Vec<Vec<u8>>)
    ensures
        views(copy@) == views(parts@),
{
    let mut copy: Vec<Vec<u8>> = Vec::new();
    let mut i: usize = 0;
    while i < parts.len()
        invariant
            i <= parts@.len(),
            copy@.len() == i,
            forall|k: int| 0 <= k < i ==> (#[trigger] copy@[k])@ == parts@[k]@,
        decreases parts@.len() - i,
    {
        copy.push(slice_to_vec(&parts[i]));
        i += 1;
    }
    assert(views(copy@) =~= views(parts@));
    copy
}

/// Adds the inputs among some entries and, where `recursive`, in the
/// directories among them.
pub fn collect_files(
    nodes: &Vec<DirNode>,
    recursive: bool,
    kind: InputKind,
    out: &mut Vec<FoundInput>,
)
    ensures
        found_views(final(out)@) == found_views(old(out)@) + inputs_in(nodes@, recursive, kind),
    decreases nodes,
{
    let mut i: usize = 0;
    assert(nodes@.take(0) =~= Seq::<DirNode>::empty());
    assert(found_views(out@) =~= found_views(old(out)@) + inputs_in(
        nodes@.take(0),
        recursive,
        kind,
    ));
    while i < nodes.len()
        invariant
            i <= nodes@.len(),
            found_views(out@) == found_views(old(out)@) + inputs_in(
                nodes@.take(i as int),
                recursive,
                kind,
            ),
        decreases nodes@.len() - i,
    {
        let node = &nodes[i];
        let ghost before = out@;
        match node.kind {
            EntryKind::Dir => {
                if recursive {
                    collect_files(&node.children, recursive, kind, out);
                }
            },
            EntryKind::File => {
                let chosen: bool = match kind {
                    InputKind::Pack => true,
                    InputKind::Extract => looks_like_file_output(&node.path),
                };
                if chosen {
                    out.push(FoundInput { id: node.id, parts: copy_parts(&node.parts) });
                    assert(found_views(out@) =~= found_views(before).push(
                        (node.id, views(node.parts@)),
                    ));
                }
            },
            EntryKind::Other => {},
        }
        proof {
            let next = nodes@.take(i + 1);
            assert(next.drop_last() =~= nodes@.take(i as int));
            assert(next.last() == node);
            assert(found_views(out@) =~= found_views(old(out)@) + inputs_in(next, recursive, kind));
        }
        i += 1;
    }
    assert(nodes@.take(i as int) =~= nodes@);
}

/// The paths of some files.
pub open spec fn paths_of(found: Seq<(usize, Seq<Seq<u8>>)>) -> Seq<Seq<Seq<u8>>> {
    found.map_values(|f: (usize, Seq<Seq<u8>>)| f.1)
}

/// What some files are known by.
pub open spec fn ids_of(found: Seq<(usize, Seq<Seq<u8>>)>) -> Seq<usize> {
    found.map_values(|f: (usize, Seq<Seq<u8>>)| f.0)
}

/// What some files are known by, in ascending order of their paths.
pub open spec fn in_ascending_order(found: Seq<(usize, Seq<Seq<u8>>)>) -> Seq<usize> {
    path_order(paths_of(found)).map_values(|at: usize| found[at as int].0)
}

/// Every file once, in ascending order of their paths.
pub open spec fn listed_in_order(found: Seq<(usize, Seq<Seq<u8>>)>, ids: Seq<usize>) -> bool {
    exists|order: Seq<usize>| #[trigger]
        is_path_order(paths_of(found), order) && ids == order.map_values(
            |at: usize| found[at as int].0,
        )
}

/// The inputs that a command finds.
pub open spec fn discovered(root: DirNode, recursive: bool, kind: InputKind) -> Result<
    Seq<usize>,
    InputError,
> {
    match root.kind {
        EntryKind::File => Ok(seq![root.id]),
        EntryKind::Dir => Ok(in_ascending_order(inputs_in(root.children@, recursive, kind))),
        EntryKind::Other => Err(InputError::NotFileOrDirectory),
    }
}

/// The inputs that a command finds, in ascending order of their paths: the
/// given file itself, or the files for this command in the given directory.
/// Fails where it is neither a file nor a directory.
pub fn discover_inputs(root: &DirNode, recursive: bool, kind: InputKind) -> (result: Result<
    Vec<usize>,
    InputError,
>)
    ensures
        match discovered(*root, recursive, kind) {
            Ok(ids) => result matches Ok(found) && found@ == ids,
            Err(e) => result matches Err(err) && err == e,
        },
        root.kind == EntryKind::Dir ==> (result matches Ok(found) && listed_in_order(
            inputs_in(root.children@, recursive, kind),
            found@,
        )),
{
    let mut ids: Vec<usize> = Vec::new();
    match root.kind {
        EntryKind::File => {
            ids.push(root.id);
            assert(ids@ =~= seq![root.id]);
            return Ok(ids);
        },
        EntryKind::Other => {
            return Err(InputError::NotFileOrDirectory);
        },
        EntryKind::Dir => {},
    }
    let mut found: Vec<FoundInput> = Vec::new();
    assert(found_views(found@) =~= Seq::<(usize, Seq<Seq<u8>>)>::empty());
    collect_files(&root.children, recursive, kind, &mut found);
    let ghost all = inputs_in(root.children@, recursive, kind);
    assert(found_views(found@) =~= all);
    let mut paths: Vec<Vec<Vec<u8>>> = Vec::new();
    let mut i: usize = 0;
    while i < found.len()
        invariant
            i <= found@.len(),
            found_views(found@) == all,
            paths@.len() == i,
            forall|k: int| 0 <= k < i ==> views((#[trigger] paths@[k])@) == all[k].1,
        decreases found@.len() - i,
    {
        paths.push(copy_parts(&found[i].parts));
        assert(all[i as int] == found@[i as int]@);
        i += 1;
    }
    assert(path_views(paths@) =~= paths_of(all));
    let order = sort_paths(&paths);
    let mut k: usize = 0;
    while k < order.len()
        invariant
            k <= order@.len(),
            found_views(found@) == all,
            found@.len() == all.len(),
            covers(order@, 0, all.len() as int),
            ids@.len() == k,
            forall|m: int| 0 <= m < k ==> #[trigger] ids@[m] == all[order@[m] as int].0,
        decreases order@.len() - k,
    {
        let at: usize = order[k];
        assert(all[at as int] == found@[at as int]@);
        ids.push(found[at].id);
        k += 1;
    }
    assert(ids@ =~= in_ascending_order(all));
    assert(is_path_order(paths_of(all), order@));
    Ok(ids)
}

/// Whether a file is among some entries, or in one of the directories among
/// them at any depth where `recursive`.
pub open spec fn lies_in(
    nodes: Seq<DirNode>,
    recursive: bool,
    kind: InputKind,
    file: (usize, Seq<Seq<u8>>),
) -> bool
    decreases nodes,
{
    exists|i: int|
        0 <= i < nodes.len() && (match (#[trigger] nodes[i]).kind {
            EntryKind::File => wanted(nodes[i].path@, kind) && file == (
                nodes[i].id,
                views(nodes[i].parts@),
            ),
            EntryKind::Dir => recursive && lies_in(nodes[i].children@, recursive, kind, file),
            EntryKind::Other => false,
        })
}

/// What two lists hold, put together.
proof fn lemma_concat_contains<T>(a: Seq<T>, b: Seq<T>, x: T)
    ensures
        (a + b).contains(x) <==> a.contains(x) || b.contains(x),
{
    if a.contains(x) {
        let i = choose|i: int| 0 <= i < a.len() && a[i] == x;
        assert((a + b)[i] == x);
    }
    if b.contains(x) {
        let i = choose|i: int| 0 <= i < b.len() && b[i] == x;
        assert((a + b)[a.len() + i] == x);
    }
    if (a + b).contains(x) {
        let i = choose|i: int| 0 <= i < (a + b).len() && (a + b)[i] == x;
        if i < a.len() {
            assert(a[i] == x);
        } else {
            assert(b[i - a.len()] == x);
        }
    }
}

/// A file is found if and only if it is a regular file for the command that
/// lies in the directory, or in one below it where those are searched.
pub proof fn law_found_inputs_are_those_there(
    nodes: Seq<DirNode>,
    recursive: bool,
    kind: InputKind,
    file: (usize, Seq<Seq<u8>>),
)
    ensures
        inputs_in(nodes, recursive, kind).contains(file) <==> lies_in(
            nodes,
            recursive,
            kind,
            file,
        ),
    decreases nodes,
{
    if nodes.len() > 0 {
        let head = nodes.drop_last();
        let last = nodes.last();
        let found = inputs_in(head, recursive, kind);
        let more = match last.kind {
            EntryKind::Dir => if recursive {
                inputs_in(last.children@, recursive, kind)
            } else {
                Seq::empty()
            },
            EntryKind::File => if wanted(last.path@, kind) {
                seq![(last.id, views(last.parts@))]
            } else {
                Seq::empty()
            },
            EntryKind::Other => Seq::empty(),
        };
        law_found_inputs_are_those_there(head, recursive, kind, file);
        law_found_inputs_are_those_there(last.children@, recursive, kind, file);
        lemma_concat_contains(found, more, file);
        assert(inputs_in(nodes, recursive, kind) == found + more);
        assert(seq![(last.id, views(last.parts@))][0] == (last.id, views(last.parts@)));
        let end = nodes.len() - 1;
        assert(nodes[end] == last);
        assert forall|i: int| 0 <= i < head.len() implies #[trigger] head[i] == nodes[i] by {}
        if lies_in(head, recursive, kind, file) {
            let i = choose|i: int|
                0 <= i < head.len() && (match (#[trigger] head[i]).kind {
                    EntryKind::File => wanted(head[i].path@, kind) && file == (
                        head[i].id,
                        views(head[i].parts@),
                    ),
                    EntryKind::Dir => recursive && lies_in(
                        head[i].children@,
                        recursive,
                        kind,
                        file,
                    ),
                    EntryKind::Other => false,
                });
            assert(nodes[i] == head[i]);
            assert(lies_in(nodes, recursive, kind, file));
        }
        if lies_in(nodes, recursive, kind, file) {
            let i = choose|i: int|
                0 <= i < nodes.len() && (match (#[trigger] nodes[i]).kind {
                    EntryKind::File => wanted(nodes[i].path@, kind) && file == (
                        nodes[i].id,
                        views(nodes[i].parts@),
                    ),
                    EntryKind::Dir => recursive && lies_in(
                        nodes[i].children@,
                        recursive,
                        kind,
                        file,
                    ),
                    EntryKind::Other => false,
                });
            if i < end {
                assert(head[i] == nodes[i]);
                assert(lies_in(head, recursive, kind, file));
            }
        }
    }
}

/// The inputs of a command are all listed, each once, and where they are
/// different files, strictly ascending by their paths.
pub proof fn law_inputs_ascend(found: Seq<(usize, Seq<Seq<u8>>)>, ids: Seq<usize>)
    requires
        listed_in_order(found, ids),
        found.len() <= usize::MAX,
        forall|a: int, b: int|
            0 <= a < b < found.len() ==> (#[trigger] found[a]).0 != (#[trigger] found[b]).0
                && found[a].1 != found[b].1,
    ensures
        ids.len() == found.len(),
        forall|a: int| 0 <= a < found.len() ==> ids.contains((#[trigger] found[a]).0),
        forall|i: int| 0 <= i < ids.len() ==> ids_of(found).contains(#[trigger] ids[i]),
        forall|i: int, j: int, a: int, b: int|
            #![trigger ids[i], ids[j], found[a], found[b]]
            0 <= i < j < ids.len() && 0 <= a < found.len() && 0 <= b < found.len() && ids[i]
                == found[a].0 && ids[j] == found[b].0 ==> path_precedes(found[a].1, found[b].1),
{
    let paths = paths_of(found);
    let order = choose|order: Seq<usize>| #[trigger]
        is_path_order(paths, order) && ids == order.map_values(|at: usize| found[at as int].0);
    assert forall|a: int| 0 <= a < found.len() implies ids.contains((#[trigger] found[a]).0) by {
        assert(order.contains(a as usize));
        let i = choose|i: int| 0 <= i < order.len() && order[i] == a as usize;
        assert(ids[i] == found[a].0);
    }
    assert forall|i: int| 0 <= i < ids.len() implies ids_of(found).contains(#[trigger] ids[i]) by {
        assert(ids_of(found)[order[i] as int] == ids[i]);
    }
    assert forall|i: int, j: int, a: int, b: int|
        #![trigger ids[i], ids[j], found[a], found[b]]
        0 <= i < j < ids.len() && 0 <= a < found.len() && 0 <= b < found.len() && ids[i]
            == found[a].0 && ids[j] == found[b].0 implies path_precedes(
        found[a].1,
        found[b].1,
    ) by {
        assert(0 <= order[i] < found.len() && 0 <= order[j] < found.len());
        assert(ids[i] == found[order[i] as int].0);
        assert(ids[j] == found[order[j] as int].0);
        assert(order[i] == a);
        assert(order[j] == b);
        assert forall|x: int, y: int| 0 <= x < y < paths.len() implies #[trigger] paths[x]
            != #[trigger] paths[y] by {
            assert(found[x].1 != found[y].1);
        }
        law_different_paths_ascend(paths, order, i, j);
    }
}

/// Whether a command works on a batch: on several inputs, or on a directory.
/// Fails where there is no input.
pub fn batch_mode(count: usize, input_is_dir: bool, kind: InputKind) -> (result: Result<
    bool,
    InputError,
>)
    ensures
        result == (if count == 0 {
            Err::<bool, InputError>(InputError::NothingFound(kind))
        } else {
            Ok(count > 1 || input_is_dir)
        }),
{
    if count == 0 {
        return Err(InputError::NothingFound(kind));
    }
    Ok(count > 1 || input_is_dir)
}

/// What becomes of a transport stream that holds no packed file.
#[derive(Clone, Copy, Debug, PartialEq, Eq, Structural)]
pub enum ExtractMode {
    /// It is remuxed; where that fails its streams are taken out, if so wished.
    Mp4 { fallback_raw: bool },
    /// Its streams are taken out.
    Raw,
}

/// The mode that the options ask for.
pub fn extract_mode(raw: bool, fallback_raw: bool) -> (mode: ExtractMode)
    ensures
        mode == (if raw {
            ExtractMode::Raw
        } else {
            ExtractMode::Mp4 { fallback_raw }
        }),
{
    if raw {
        ExtractMode::Raw
    } else {
        ExtractMode::Mp4 { fallback_raw }
    }
}

/// A file that is given is the one input, whatever it is called; something that
/// is neither a file nor a directory is refused.
pub proof fn law_given_file_is_the_input(root: DirNode, recursive: bool, kind: InputKind)
    ensures
        root.kind == EntryKind::File ==> discovered(root, recursive, kind) == Ok::<
            Seq<usize>,
            InputError,
        >(seq![root.id]),
        root.kind == EntryKind::Other ==> discovered(root, recursive, kind) == Err::<
            Seq<usize>,
            InputError,
        >(InputError::NotFileOrDirectory),
        root.kind == EntryKind::Dir ==> discovered(root, recursive, kind) is Ok,
{
}

/// Every file is for packing; for extracting, those that end in `.ts` in upper
/// or lower case.
pub proof fn law_files_are_chosen_by_extension(
    path: PathView,
    base: Seq<u8>,
    extension: Option<Seq<u8>>,
)
    requires
        path.name matches Some(name) ==> is_cut(name, base, extension),
    ensures
        wanted(path, InputKind::Pack),
        wanted(path, InputKind::Extract) <==> path.name is Some && (extension matches Some(ext)
            && spells_ts(ext)),
{
    law_packed_files_end_in_ts(path, base, extension);
}

} // verus!
