//! What the naming rules promise together.

use vstd::prelude::*;

use crate::paths::absolute_form;
use crate::paths::all_distinct;
use crate::paths::collision_verdict;
use crate::paths::extension_dot;
use crate::paths::extension_of;
use crate::paths::extract_output;
use crate::paths::fallback_dir;
use crate::paths::is_ts_path;
use crate::paths::key_of;
use crate::paths::last_dot;
use crate::paths::lookup_dir_spec;
use crate::paths::lower;
use crate::paths::pack_output;
use crate::paths::parent_or_here;
use crate::paths::path_extension;
use crate::paths::raw_dir;
use crate::paths::same_ignoring_case;
use crate::paths::stem_of;
use crate::paths::temp_name;
use crate::paths::temp_path;
use crate::paths::ts_extension;
use crate::paths::with_extension_spec;
use crate::paths::OutputView;
use crate::paths::PathError;
use crate::paths::PathFacts;
use crate::paths::PathView;
use crate::paths::PlannedOutput;

verus! {

/// There is no dot in these bytes.
spec fn dotless(bytes: Seq<u8>) -> bool {
    forall|i: int| 0 <= i < bytes.len() ==> #[trigger] bytes[i] != 0x2E
}

/// The last dot is a dot, and no dot follows it.
proof fn lemma_last_dot(name: Seq<u8>)
    ensures
        -1 <= last_dot(name) < name.len(),
        last_dot(name) >= 0 ==> name[last_dot(name)] == 0x2E,
        forall|i: int| last_dot(name) < i < name.len() ==> #[trigger] name[i] != 0x2E,
    decreases name.len(),
{
    if name.len() > 0 && name.last() != 0x2Eu8 {
        let head = name.drop_last();
        lemma_last_dot(head);
        assert forall|i: int| last_dot(name) < i < name.len() implies #[trigger] name[i] != 0x2E by {
            if i < head.len() {
                assert(head[i] == name[i]);
            }
        }
    }
}

/// The last dot is the one before bytes without dots.
proof fn lemma_dot_before(stem: Seq<u8>, tail: Seq<u8>)
    requires
        dotless(tail),
    ensures
        last_dot(stem + seq![0x2Eu8] + tail) == stem.len(),
{
    let name = stem + seq![0x2Eu8] + tail;
    lemma_last_dot(name);
    assert(name[stem.len() as int] == 0x2E);
    assert forall|i: int| stem.len() < i < name.len() implies name[i] != 0x2E by {
        assert(name[i] == tail[i - stem.len() - 1]);
    }
}

/// An extension holds no dot.
proof fn lemma_extension_dotless(name: Seq<u8>)
    ensures
        extension_of(name) matches Some(ext) ==> dotless(ext),
{
    lemma_last_dot(name);
}

/// The mark of temporary files.
spec fn part_mark() -> Seq<u8> {
    seq![0x2Eu8, 0x70u8, 0x61u8, 0x72u8, 0x74u8]
}

/// A temporary file stands beside its output, under another, hidden name.
pub proof fn law_temp_stands_beside_output(path: PathView)
    requires
        path.name is Some,
    ensures
        temp_path(path) == Ok::<OutputView, PathError>(
            OutputView::InDir(parent_or_here(path), temp_name(path.name.unwrap())),
        ),
        temp_name(path.name.unwrap()) != path.name.unwrap(),
        temp_name(path.name.unwrap())[0] == 0x2E,
{
    let name = path.name.unwrap();
    assert(temp_name(name).len() > name.len());
}

/// Where the extension of a temporary name begins.
proof fn lemma_temp_name(name: Seq<u8>)
    ensures
        match extension_of(name) {
            Some(ext) => last_dot(temp_name(name)) == name.len() + 6 && temp_name(name) == seq![
                0x2Eu8,
            ] + name + part_mark() + seq![0x2Eu8] + ext,
            None => last_dot(temp_name(name)) == name.len() + 1 && temp_name(name) == seq![0x2Eu8]
                + name + part_mark(),
        },
{
    lemma_extension_dotless(name);
    let base = seq![0x2Eu8] + name;
    match extension_of(name) {
        Some(ext) => {
            lemma_dot_before(base + part_mark(), ext);
        },
        None => {
            let word = seq![0x70u8, 0x61u8, 0x72u8, 0x74u8];
            lemma_dot_before(base, word);
            assert(base + part_mark() =~= base + seq![0x2Eu8] + word);
        },
    }
}

/// Different outputs in one directory have different temporary files.
pub proof fn law_temp_names_are_distinct(a: Seq<u8>, b: Seq<u8>)
    requires
        temp_name(a) == temp_name(b),
    ensures
        a == b,
{
    lemma_temp_name(a);
    lemma_temp_name(b);
    let t = temp_name(a);
    let n = last_dot(t);
    if extension_of(a) is Some && extension_of(b) is Some {
        assert(a =~= t.subrange(1, n - 5));
        assert(b =~= t.subrange(1, n - 5));
    } else if extension_of(a) is None && extension_of(b) is None {
        assert(a =~= t.subrange(1, n));
        assert(b =~= t.subrange(1, n));
    } else if extension_of(a) is Some {
        lemma_mixed_temp_names(a, b);
    } else {
        lemma_mixed_temp_names(b, a);
    }
}

/// Outputs that are all different have temporary files that are all different,
/// so that they can be written at the same time.
pub proof fn law_distinct_outputs_have_distinct_temps(planned: Seq<PlannedOutput>, i: int, j: int)
    requires
        all_distinct(planned, planned.len() as int),
        0 <= i < j < planned.len(),
    ensures
        key_of(planned[i]) matches Some((dir, name)) && (key_of(planned[j]) matches Some(
            (other_dir, other_name),
        ) && (dir, temp_name(name)) != (other_dir, temp_name(other_name))),
{
    assert(key_of(planned[i]) is Some);
    assert(key_of(planned[j]) is Some);
    let (dir, name) = key_of(planned[i]).unwrap();
    let (other_dir, other_name) = key_of(planned[j]).unwrap();
    if temp_name(name) == temp_name(other_name) {
        law_temp_names_are_distinct(name, other_name);
    }
}

/// A name with an extension and one without have different temporary names.
proof fn lemma_mixed_temp_names(a: Seq<u8>, b: Seq<u8>)
    requires
        extension_of(a) is Some,
        extension_of(b) is None,
    ensures
        temp_name(a) != temp_name(b),
{
    lemma_temp_name(a);
    lemma_temp_name(b);
    lemma_last_dot(a);
    let t = temp_name(a);
    let word = seq![0x70u8, 0x61u8, 0x72u8, 0x74u8];
    if temp_name(b) == t {
        assert(b =~= t.subrange(1, last_dot(t)));
        assert(b =~= a + part_mark());
        assert(a + part_mark() =~= a + seq![0x2Eu8] + word);
        lemma_dot_before(a, word);
        assert(a.len() > 0);
        assert(b.len() > 2);
    }
}

/// A name that is given the extension of packed files, and then its own, is
/// what it was.
proof fn lemma_name_comes_back(name: Seq<u8>)
    requires
        name.len() > 0,
        name.last() != 0x2E,
    ensures
        ({
            let middle = with_extension_spec(stem_of(name), Some(ts_extension()));
            with_extension_spec(stem_of(middle), extension_of(name)) == name
        }),
{
    let stem = stem_of(name);
    let ts = ts_extension();
    lemma_last_dot(name);
    lemma_dot_before(stem, ts);
    let middle = stem + seq![0x2Eu8] + ts;
    assert(stem.len() > 0);
    assert(middle.len() > 2);
    assert(extension_dot(middle) == Some(stem.len() as int));
    assert(stem_of(middle) =~= stem);
    match extension_of(name) {
        Some(ext) => {
            assert(ext.len() > 0);
            assert(with_extension_spec(stem, Some(ext)) =~= name);
        },
        None => {},
    }
}

/// A packed file that is extracted where it lies gets back the name it had:
/// `file.zip` becomes `file.ts` and that becomes `file.zip`. Left out are names
/// that end in a dot, since an empty extension is not written.
pub proof fn law_extracting_restores_the_name(
    input: PathView,
    packed: PathView,
    packed_is_dir: bool,
    batch: bool,
)
    requires
        input.name matches Some(name) && name.len() > 0 && name.last() != 0x2E,
        packed.name is Some,
        pack_output(input, None, batch) == Ok::<OutputView, PathError>(
            OutputView::InDir(parent_or_here(packed), packed.name.unwrap()),
        ),
    ensures
        extract_output(packed, None, packed_is_dir, batch, extension_of(input.name.unwrap())) == Ok::<
            OutputView,
            PathError,
        >(OutputView::InDir(parent_or_here(input), input.name.unwrap())),
{
    lemma_name_comes_back(input.name.unwrap());
}

/// A batch that is packed into one directory and extracted into another gets
/// back the names it had, in that directory. The same holds of a single file,
/// as long as the outputs that are given are not taken for files. Left out are
/// names that end in a dot.
pub proof fn law_directories_restore_the_name(
    input: PathView,
    pack_dir: PathView,
    pack_batch: bool,
    packed: PathView,
    extract_dir: PathView,
    extract_is_dir: bool,
    extract_batch: bool,
)
    requires
        input.name matches Some(name) && name.len() > 0 && name.last() != 0x2E,
        packed.name is Some,
        pack_batch || !is_ts_path(pack_dir),
        pack_output(input, Some(pack_dir), pack_batch) == Ok::<OutputView, PathError>(
            OutputView::InDir(pack_dir.text, packed.name.unwrap()),
        ),
        extract_batch || extract_is_dir || path_extension(extract_dir) is None,
    ensures
        extract_output(
            packed,
            Some(extract_dir),
            extract_is_dir,
            extract_batch,
            extension_of(input.name.unwrap()),
        ) == Ok::<OutputView, PathError>(
            OutputView::InDir(extract_dir.text, input.name.unwrap()),
        ),
{
    lemma_name_comes_back(input.name.unwrap());
}

/// How a file name falls into a base and an extension: at its last dot, unless
/// nothing precedes that. The name of the parent directory has no extension.
pub open spec fn is_cut(name: Seq<u8>, base: Seq<u8>, extension: Option<Seq<u8>>) -> bool {
    match extension {
        Some(ext) => {
            &&& name == base + seq![0x2Eu8] + ext
            &&& base.len() > 0
            &&& forall|i: int| 0 <= i < ext.len() ==> #[trigger] ext[i] != 0x2E
            &&& name != seq![0x2Eu8, 0x2Eu8]
        },
        None => {
            &&& base == name
            &&& name == seq![0x2Eu8, 0x2Eu8] || forall|i: int|
                1 <= i < name.len() ==> #[trigger] name[i] != 0x2E
        },
    }
}

/// One extension is taken off a name, the one behind its last dot, and no more.
pub proof fn law_one_extension_is_cut_off(
    name: Seq<u8>,
    base: Seq<u8>,
    extension: Option<Seq<u8>>,
)
    requires
        is_cut(name, base, extension),
    ensures
        stem_of(name) == base,
        extension_of(name) == extension,
{
    match extension {
        Some(ext) => {
            lemma_dot_before(base, ext);
            assert(name.take(base.len() as int) =~= base);
            assert(name.skip(base.len() as int + 1) =~= ext);
        },
        None => {
            lemma_last_dot(name);
            let dot = last_dot(name);
            if dot > 0 && name != seq![0x2Eu8, 0x2Eu8] {
                assert(name[dot] == 0x2E);
            }
        },
    }
}

/// Every name has a base, and an extension or none.
pub proof fn law_every_name_is_cut(name: Seq<u8>)
    ensures
        is_cut(name, stem_of(name), extension_of(name)),
{
    lemma_last_dot(name);
    let dot = last_dot(name);
    if dot > 0 {
        assert(name =~= name.take(dot) + seq![0x2Eu8] + name.skip(dot + 1));
    }
}

/// The letters `ts`, in upper or lower case.
pub open spec fn spells_ts(ext: Seq<u8>) -> bool {
    &&& ext.len() == 2
    &&& ext[0] == 0x74 || ext[0] == 0x54
    &&& ext[1] == 0x73 || ext[1] == 0x53
}

/// A path is that of a packed file if and only if the extension of its file
/// name is `ts`, in upper or lower case.
pub proof fn law_packed_files_end_in_ts(path: PathView, base: Seq<u8>, extension: Option<Seq<u8>>)
    requires
        path.name matches Some(name) ==> is_cut(name, base, extension),
    ensures
        is_ts_path(path) <==> path.name is Some && (extension matches Some(ext) && spells_ts(ext)),
{
    if let Some(name) = path.name {
        law_one_extension_is_cut_off(name, base, extension);
        if let Some(ext) = extension {
            let ts = ts_extension();
            if same_ignoring_case(ext, ts) {
                assert(lower(ext[0]) == lower(ts[0]));
                assert(lower(ext[1]) == lower(ts[1]));
            }
            if spells_ts(ext) {
                assert forall|i: int| 0 <= i < ext.len() implies lower(#[trigger] ext[i]) == lower(
                    ts[i],
                ) by {
                    assert(i == 0 || i == 1);
                }
            }
        }
    }
}

/// The directory of a path: what precedes its last component, and the current
/// one where it has but one.
pub open spec fn directory_of(path: PathView) -> Seq<u8> {
    match path.parent {
        Some(parent) => parent,
        None => seq![0x2Eu8],
    }
}

/// A base with an extension behind it, where that is not empty.
pub open spec fn dotted(base: Seq<u8>, extension: Option<Seq<u8>>) -> Seq<u8> {
    match extension {
        Some(ext) => if ext.len() > 0 {
            base + seq![0x2Eu8] + ext
        } else {
            base
        },
        None => base,
    }
}

/// Where a packed file goes: to the very path that was given, where that ends
/// in `.ts` and there is one input; else, under the base of the input's name
/// with `.ts`, into the directory that was given, or into that of the input.
pub proof fn law_packed_file_goes_where_asked(
    input: PathView,
    output: Option<PathView>,
    batch: bool,
    base: Seq<u8>,
    extension: Option<Seq<u8>>,
    out_base: Seq<u8>,
    out_extension: Option<Seq<u8>>,
)
    requires
        input.name matches Some(name) && is_cut(name, base, extension),
        output matches Some(out) ==> (out.name matches Some(name) ==> is_cut(
            name,
            out_base,
            out_extension,
        )),
    ensures
        ({
            let file = base + seq![0x2Eu8, 0x74u8, 0x73u8];
            pack_output(input, output, batch) == Ok::<OutputView, PathError>(
                match output {
                    None => OutputView::InDir(directory_of(input), file),
                    Some(out) => if !batch && out.name is Some && (out_extension matches Some(ext)
                        && spells_ts(ext)) {
                        OutputView::Exact(out.text)
                    } else {
                        OutputView::InDir(out.text, file)
                    },
                },
            )
        }),
{
    law_one_extension_is_cut_off(input.name.unwrap(), base, extension);
    if let Some(out) = output {
        law_packed_files_end_in_ts(out, out_base, out_extension);
    }
    assert(base + seq![0x2Eu8] + ts_extension() =~= base + seq![0x2Eu8, 0x74u8, 0x73u8]);
}

/// Where what comes out of an input goes: to the very path that was given,
/// where that has an extension, is no directory, and there is one input; else,
/// under the base of the input's name with the extension of what comes out,
/// into the directory that was given, or into that of the input.
pub proof fn law_extracted_file_goes_where_asked(
    input: PathView,
    output: Option<PathView>,
    output_is_dir: bool,
    batch: bool,
    file_extension: Option<Seq<u8>>,
    base: Seq<u8>,
    extension: Option<Seq<u8>>,
    out_base: Seq<u8>,
    out_extension: Option<Seq<u8>>,
)
    requires
        input.name matches Some(name) && is_cut(name, base, extension),
        output matches Some(out) ==> (out.name matches Some(name) ==> is_cut(
            name,
            out_base,
            out_extension,
        )),
    ensures
        extract_output(input, output, output_is_dir, batch, file_extension) == Ok::<
            OutputView,
            PathError,
        >(
            match output {
                None => OutputView::InDir(directory_of(input), dotted(base, file_extension)),
                Some(out) => if !batch && !output_is_dir && out.name is Some && out_extension is Some {
                    OutputView::Exact(out.text)
                } else {
                    OutputView::InDir(out.text, dotted(base, file_extension))
                },
            },
        ),
{
    law_one_extension_is_cut_off(input.name.unwrap(), base, extension);
    if let Some(out) = output {
        if let Some(name) = out.name {
            law_one_extension_is_cut_off(name, out_base, out_extension);
        }
    }
}

/// An input without a file name has no output.
pub proof fn law_nameless_input_is_refused(
    input: PathView,
    output: Option<PathView>,
    output_is_dir: bool,
    batch: bool,
    extension: Option<Seq<u8>>,
)
    requires
        input.name is None,
    ensures
        pack_output(input, output, batch) == Err::<OutputView, PathError>(PathError::NoFileName),
        extract_output(input, output, output_is_dir, batch, extension) == Err::<
            OutputView,
            PathError,
        >(PathError::NoFileName),
        temp_path(input) == Err::<OutputView, PathError>(PathError::NoFileName),
{
}

/// Raw streams go into the directory that was given, else into that of the
/// input. As a fallback they go beside the file that was wanted, where one was
/// named.
pub proof fn law_streams_go_where_asked(
    input: PathView,
    output: Option<PathView>,
    output_is_dir: bool,
    batch: bool,
    out_base: Seq<u8>,
    out_extension: Option<Seq<u8>>,
)
    requires
        output matches Some(out) ==> (out.name matches Some(name) ==> is_cut(
            name,
            out_base,
            out_extension,
        )),
    ensures
        raw_dir(input, output) == (match output {
            Some(out) => out.text,
            None => directory_of(input),
        }),
        fallback_dir(input, output, output_is_dir, batch) == (match output {
            Some(out) => if !batch && !output_is_dir && out.name is Some && out_extension is Some {
                directory_of(out)
            } else {
                out.text
            },
            None => directory_of(input),
        }),
{
    if let Some(out) = output {
        if let Some(name) = out.name {
            law_one_extension_is_cut_off(name, out_base, out_extension);
        }
    }
}

/// A temporary file lies in the directory of its output; its name is that of
/// the output between a dot and `.part`, with the extension of the output.
pub proof fn law_temp_name_is_spelled_out(
    path: PathView,
    base: Seq<u8>,
    extension: Option<Seq<u8>>,
)
    requires
        path.name matches Some(name) && is_cut(name, base, extension),
    ensures
        ({
            let hidden = seq![0x2Eu8] + path.name.unwrap() + seq![
                0x2Eu8,
                0x70u8,
                0x61u8,
                0x72u8,
                0x74u8,
            ];
            temp_path(path) == Ok::<OutputView, PathError>(
                OutputView::InDir(
                    directory_of(path),
                    match extension {
                        Some(ext) => hidden + seq![0x2Eu8] + ext,
                        None => hidden,
                    },
                ),
            )
        }),
{
    law_one_extension_is_cut_off(path.name.unwrap(), base, extension);
}

/// The absolute form of a path: the path with links resolved where it exists;
/// else its name in the directory, resolved where that exists.
pub proof fn law_absolute_form_is_resolved(path: PathView, facts: PathFacts)
    ensures
        facts.canonical matches Some(whole) ==> absolute_form(path, facts) == Ok::<
            OutputView,
            PathError,
        >(OutputView::Exact(whole@)),
        facts.canonical is None && path.name is None ==> absolute_form(path, facts) == Err::<
            OutputView,
            PathError,
        >(PathError::NoFileName),
        facts.canonical is None ==> (path.name matches Some(name) ==> absolute_form(path, facts)
            == Ok::<OutputView, PathError>(
            OutputView::InDir(
                if facts.canonical_parent is Some {
                    facts.canonical_parent.unwrap()@
                } else {
                    facts.absolute_parent@
                },
                name,
            ),
        )),
        path.parent is None || path.parent.unwrap().len() == 0 ==> lookup_dir_spec(path) == seq![
            0x2Eu8,
        ],
        path.parent matches Some(parent) ==> (parent.len() > 0 ==> lookup_dir_spec(path) == parent),
{
}

/// Two planned outputs are one file where they have one name in one directory.
pub open spec fn same_file(a: PlannedOutput, b: PlannedOutput) -> bool {
    &&& a.dir@ == b.dir@
    &&& a.output@.name is Some
    &&& a.output@.name == b.output@.name
}

/// A plan is let through if and only if every output has a name and no two are
/// one file. Otherwise the answer names the first output that is wrong: one
/// without a name, or one that is the same file as an earlier one, and which.
pub proof fn law_collisions_are_found(
    planned: Seq<PlannedOutput>,
    result: Result<(), PathError>,
)
    requires
        collision_verdict(planned, result),
    ensures
        result is Ok <==> (forall|i: int|
            0 <= i < planned.len() ==> (#[trigger] planned[i]).output@.name is Some) && (forall|
            i: int,
            j: int,
        |
            0 <= i < j < planned.len() ==> !same_file(#[trigger] planned[i], #[trigger] planned[j])),
        result matches Err(PathError::Collision(i, j)) ==> i < j < planned.len() && same_file(
            planned[i as int],
            planned[j as int],
        ) && forall|a: int, b: int|
            0 <= a < b < j ==> !same_file(#[trigger] planned[a], #[trigger] planned[b]),
        result matches Err(e) ==> e == PathError::NoFileName || e is Collision,
{
    assert forall|a: int, b: int| 0 <= a < b < planned.len() implies (same_file(
        #[trigger] planned[a],
        #[trigger] planned[b],
    ) <==> key_of(planned[a]) is Some && key_of(planned[a]) == key_of(planned[b])) by {}
    match result {
        Ok(()) => {
            assert forall|i: int| 0 <= i < planned.len() implies (
            #[trigger] planned[i]).output@.name is Some by {
                assert(key_of(planned[i]) is Some);
            }
            assert forall|i: int, j: int| 0 <= i < j < planned.len() implies !same_file(
                #[trigger] planned[i],
                #[trigger] planned[j],
            ) by {
                assert(key_of(planned[j]) is Some);
                assert(key_of(planned[i]) != key_of(planned[j]));
            }
        },
        Err(PathError::NoFileName) => {
            let j = choose|j: int|
                0 <= j < planned.len() && all_distinct(planned, j) && (#[trigger] key_of(planned[j]))
                    is None;
            assert(planned[j].output@.name is None);
        },
        Err(PathError::Collision(i, j)) => {
            assert(same_file(planned[i as int], planned[j as int]));
            assert forall|a: int, b: int| 0 <= a < b < j implies !same_file(
                #[trigger] planned[a],
                #[trigger] planned[b],
            ) by {
                assert(key_of(planned[b]) is Some);
                assert(key_of(planned[a]) != key_of(planned[b]));
            }
        },
        Err(_) => {},
    }
}

/// Letters are compared without regard to their case, and nothing else is.
pub proof fn law_case_of_letters_does_not_matter(a: u8, b: u8)
    ensures
        lower(a) == lower(b) <==> a == b || (0x41 <= a <= 0x5A && b == a + 0x20) || (0x41 <= b <= 0x5A
            && a == b + 0x20),
        same_ignoring_case(seq![a], seq![b]) <==> lower(a) == lower(b),
        !same_ignoring_case(seq![a], Seq::empty()),
{
    assert(seq![a][0] == a && seq![b][0] == b);
}

} // verus!
