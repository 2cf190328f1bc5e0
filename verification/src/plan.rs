//! What the raw outputs of a file are called.

use vstd::prelude::*;
use vstd::slice::slice_to_vec;
use vstd::utf8::decode_utf8_encode_utf8;
use vstd::utf8::encode_utf8;
use vstd::utf8::valid_utf8;

use crate::analysis::all_known;
use crate::analysis::analyze;
use crate::analysis::streams_in;
use crate::bytes::append;
use crate::bytes::same_bytes;
use crate::bytes::views;
use crate::error::DemuxError;
use crate::paths::file_stem;
use crate::paths::stem_of;
use crate::paths::FilePath;
use crate::paths::OutputPath;
use crate::paths::OutputView;
use crate::paths::PathView;
use crate::psi::extension_text;
use crate::psi::StreamInfo;
use crate::text::append_decimal;
use crate::text::append_hex4;
use crate::text::comes_before;
use crate::text::decimal;
use crate::text::hex4;
use crate::text::law_order_is_total;
use crate::text::law_order_is_transitive;
use crate::text::precedes;
use crate::utf8::string_from_utf8;

verus! {

/// The name of a stream's output: the base and the kind, and between them the
/// program and the identifier where there is more than one stream.
pub open spec fn output_name(base: Seq<u8>, stream: StreamInfo, multi: bool) -> Seq<u8> {
    let extension = encode_utf8(extension_text(stream.kind.unwrap()));
    if multi {
        base + seq![0x5Fu8, 0x70u8] + decimal(stream.program_number as nat) + seq![
            0x5Fu8, 0x70u8, 0x69u8, 0x64u8,
        ] + hex4(stream.pid) + seq![0x2Eu8] + extension
    } else {
        base + seq![0x2Eu8] + extension
    }
}

/// The names of the outputs of some streams.
pub open spec fn output_names(base: Seq<u8>, streams: Seq<StreamInfo>) -> Seq<Seq<u8>> {
    Seq::new(streams.len(), |i: int| output_name(base, streams[i], streams.len() > 1))
}

/// The first name from `from` on that is `name`.
pub open spec fn first_index(names: Seq<Seq<u8>>, name: Seq<u8>, from: int) -> int
    decreases names.len() - from,
{
    if from >= names.len() || names[from] == name {
        from
    } else {
        first_index(names, name, from + 1)
    }
}

/// The first name from `from` on that repeats an earlier one, and the first
/// one it repeats.
pub open spec fn first_repeat(names: Seq<Seq<u8>>, from: int) -> Option<(int, int)>
    decreases names.len() - from,
{
    if from >= names.len() {
        None
    } else if first_index(names, names[from], 0) < from {
        Some((first_index(names, names[from], 0), from))
    } else {
        first_repeat(names, from + 1)
    }
}

/// The first `count` names are all different.
pub open spec fn distinct_below(names: Seq<Seq<u8>>, count: int) -> bool {
    forall|i: int, j: int| 0 <= i < j < count ==> #[trigger] names[i] != #[trigger] names[j]
}

/// A repeat is found if and only if not all names are different, and then it is
/// the first: the names before it are all different, and one of them is its.
pub proof fn law_first_repeat_is_first(names: Seq<Seq<u8>>)
    ensures
        match first_repeat(names, 0) {
            Some((i, j)) => {
                &&& 0 <= i < j < names.len()
                &&& names[i] == names[j]
                &&& distinct_below(names, j)
            },
            None => distinct_below(names, names.len() as int),
        },
{
    lemma_first_repeat(names, 0);
}

/// The first repeat from a point before which all names are different.
proof fn lemma_first_repeat(names: Seq<Seq<u8>>, from: int)
    requires
        0 <= from <= names.len(),
        distinct_below(names, from),
    ensures
        match first_repeat(names, from) {
            Some((i, j)) => {
                &&& 0 <= i < j < names.len()
                &&& names[i] == names[j]
                &&& distinct_below(names, j)
            },
            None => distinct_below(names, names.len() as int),
        },
    decreases names.len() - from,
{
    if from < names.len() {
        lemma_first_index(names, names[from], 0);
        if first_index(names, names[from], 0) >= from {
            lemma_first_repeat(names, from + 1);
        }
    }
}

/// The first index is that of the name, and no earlier one is.
proof fn lemma_first_index(names: Seq<Seq<u8>>, name: Seq<u8>, from: int)
    requires
        0 <= from <= names.len(),
    ensures
        from <= first_index(names, name, from) <= names.len(),
        first_index(names, name, from) < names.len() ==> names[first_index(names, name, from)]
            == name,
        forall|k: int| from <= k < first_index(names, name, from) ==> #[trigger] names[k] != name,
    decreases names.len() - from,
{
    if from < names.len() && names[from] != name {
        lemma_first_index(names, name, from + 1);
    }
}

/// Whether no later stream has the identifier of this one. Of several entries
/// for one identifier only the last has an output.
pub open spec fn is_last(streams: Seq<StreamInfo>, index: int) -> bool {
    forall|k: int| index < k < streams.len() ==> (#[trigger] streams[k]).pid != streams[index].pid
}

/// The outputs are in the order of their names, which are all different.
pub open spec fn in_order(targets: Seq<(u16, Seq<u8>)>) -> bool {
    forall|i: int, j: int|
        0 <= i < j < targets.len() ==> precedes((#[trigger] targets[i]).1, (#[trigger] targets[j]).1)
}

/// Whether an identifier and a name are those of an output.
pub open spec fn is_target(base: Seq<u8>, streams: Seq<StreamInfo>, target: (u16, Seq<u8>)) -> bool {
    exists|i: int|
        0 <= i < streams.len() && #[trigger] is_last(streams, i) && target == (
            streams[i].pid,
            output_name(base, streams[i], streams.len() > 1),
        )
}

/// A list of exactly the outputs, by identifier and name, in the order of their
/// names.
pub open spec fn is_listing(
    targets: Seq<(u16, Seq<u8>)>,
    base: Seq<u8>,
    streams: Seq<StreamInfo>,
) -> bool {
    &&& in_order(targets)
    &&& forall|target: (u16, Seq<u8>)|
        targets.contains(target) <==> #[trigger] is_target(base, streams, target)
}

/// The list of the outputs.
pub open spec fn listing(base: Seq<u8>, streams: Seq<StreamInfo>) -> Seq<(u16, Seq<u8>)> {
    choose|targets: Seq<(u16, Seq<u8>)>| is_listing(targets, base, streams)
}

/// The outputs of some streams, or the first two that have one name.
pub open spec fn planned(base: Seq<u8>, streams: Seq<StreamInfo>) -> Result<
    Seq<(u16, Seq<u8>)>,
    DemuxError,
> {
    match first_repeat(output_names(base, streams), 0) {
        Some((i, j)) => Err(DemuxError::NameCollision(streams[i].pid, streams[j].pid)),
        None => Ok(listing(base, streams)),
    }
}

/// The outputs of a file.
pub open spec fn raw_plan(data: Seq<u8>, input: PathView) -> Result<
    Seq<(u16, Seq<u8>)>,
    DemuxError,
> {
    match streams_in(data) {
        Err(e) => Err(e),
        Ok(streams) => match input.name {
            None => Err(DemuxError::InputNameNotUtf8),
            Some(name) => if !valid_utf8(stem_of(name)) {
                Err(DemuxError::InputNameNotUtf8)
            } else {
                planned(stem_of(name), streams)
            },
        },
    }
}

/// There is at most one list of the outputs.
pub proof fn law_listing_is_unique(
    a: Seq<(u16, Seq<u8>)>,
    b: Seq<(u16, Seq<u8>)>,
    base: Seq<u8>,
    streams: Seq<StreamInfo>,
)
    requires
        is_listing(a, base, streams),
        is_listing(b, base, streams),
    ensures
        a == b,
{
    assert forall|t: (u16, Seq<u8>)| a.contains(t) <==> b.contains(t) by {
        assert(a.contains(t) == is_target(base, streams, t));
        assert(b.contains(t) == is_target(base, streams, t));
    }
    lemma_ordered_unique(a, b);
}

/// Two ordered lists with the same members are the same.
proof fn lemma_ordered_unique(a: Seq<(u16, Seq<u8>)>, b: Seq<(u16, Seq<u8>)>)
    requires
        in_order(a),
        in_order(b),
        forall|t: (u16, Seq<u8>)| a.contains(t) <==> b.contains(t),
    ensures
        a == b,
    decreases a.len(),
{
    if a.len() == 0 {
        if b.len() > 0 {
            assert(b.contains(b[0]));
            assert(a.contains(b[0]));
        }
        assert(a =~= b);
    } else {
        assert(a.contains(a[0]));
        assert(b.contains(a[0]));
        let k = choose|k: int| 0 <= k < b.len() && b[k] == a[0];
        assert(b.contains(b[0]));
        assert(a.contains(b[0]));
        let m = choose|m: int| 0 <= m < a.len() && a[m] == b[0];
        law_order_is_total(a[0].1, b[0].1);
        assert(k == 0);
        let x = a.drop_first();
        let y = b.drop_first();
        assert forall|t: (u16, Seq<u8>)| x.contains(t) <==> y.contains(t) by {
            law_order_is_total(t.1, t.1);
            if x.contains(t) {
                let i = choose|i: int| 0 <= i < x.len() && x[i] == t;
                assert(a[i + 1] == t);
                assert(a.contains(t));
                assert(b.contains(t));
                let j = choose|j: int| 0 <= j < b.len() && b[j] == t;
                assert(j != 0);
                assert(y[j - 1] == t);
            }
            if y.contains(t) {
                let i = choose|i: int| 0 <= i < y.len() && y[i] == t;
                assert(b[i + 1] == t);
                assert(b.contains(t));
                assert(a.contains(t));
                let j = choose|j: int| 0 <= j < a.len() && a[j] == t;
                assert(j != 0);
                assert(x[j - 1] == t);
            }
        }
        assert(in_order(x)) by {
            assert forall|i: int, j: int| 0 <= i < j < x.len() implies precedes(
                (#[trigger] x[i]).1,
                (#[trigger] x[j]).1,
            ) by {
                assert(precedes(a[i + 1].1, a[j + 1].1));
            }
        }
        assert(in_order(y)) by {
            assert forall|i: int, j: int| 0 <= i < j < y.len() implies precedes(
                (#[trigger] y[i]).1,
                (#[trigger] y[j]).1,
            ) by {
                assert(precedes(b[i + 1].1, b[j + 1].1));
            }
        }
        lemma_ordered_unique(x, y);
        assert(a =~= seq![a[0]] + x);
        assert(b =~= seq![b[0]] + y);
    }
}

/// No two outputs are of one stream.
pub open spec fn distinct_pids(targets: Seq<(u16, Seq<u8>)>) -> bool {
    forall|i: int, j: int|
        0 <= i < j < targets.len() ==> (#[trigger] targets[i]).0 != (#[trigger] targets[j]).0
}

/// Each stream has one output.
pub proof fn law_one_output_per_stream(
    targets: Seq<(u16, Seq<u8>)>,
    base: Seq<u8>,
    streams: Seq<StreamInfo>,
)
    requires
        is_listing(targets, base, streams),
    ensures
        distinct_pids(targets),
{
    assert forall|i: int, j: int| 0 <= i < j < targets.len() implies (#[trigger] targets[i]).0 != (
    #[trigger] targets[j]).0 by {
        assert(targets.contains(targets[i]));
        assert(targets.contains(targets[j]));
        assert(is_target(base, streams, targets[i]));
        assert(is_target(base, streams, targets[j]));
        let a = choose|a: int|
            0 <= a < streams.len() && #[trigger] is_last(streams, a) && targets[i] == (
                streams[a].pid,
                output_name(base, streams[a], streams.len() > 1),
            );
        let b = choose|b: int|
            0 <= b < streams.len() && #[trigger] is_last(streams, b) && targets[j] == (
                streams[b].pid,
                output_name(base, streams[b], streams.len() > 1),
            );
        law_order_is_total(targets[i].1, targets[j].1);
        assert(a != b);
        assert(streams[a].pid != streams[b].pid);
    }
}

/// One output: the identifier of its stream, and its name.
pub struct Target {
    pub pid: u16,
    pub name: Vec<u8>,
}

impl View for Target {
    type V = (u16, Seq<u8>);

    open spec fn view(&self) -> (u16, Seq<u8>) {
        (self.pid, self.name@)
    }
}

/// The contents of a list of outputs.
pub open spec fn target_views(targets: Seq<Target>) -> Seq<(u16, Seq<u8>)> {
    targets.map_values(|t: Target| t@)
}

/// The name of a stream's output.
fn name_of(base: &[u8], stream: StreamInfo, multi: bool) -> (name: Vec<u8>)
    requires
        stream.kind is Some,
    ensures
        name@ == output_name(base@, stream, multi),
{
    let mut name: Vec<u8> = Vec::new();
    append(&mut name, base);
    if multi {
        name.push(0x5F);
        name.push(0x70);
        append_decimal(&mut name, stream.program_number as u64);
        name.push(0x5F);
        name.push(0x70);
        name.push(0x69);
        name.push(0x64);
        append_hex4(&mut name, stream.pid);
    }
    name.push(0x2E);
    if let Some(kind) = stream.kind {
        append(&mut name, kind.extension().as_bytes());
    }
    assert(name@ =~= output_name(base@, stream, multi));
    name
}

/// Puts an output into its place in an ordered list.
fn insert_in_order(targets: &mut Vec<Target>, target: Target)
    requires
        in_order(target_views(old(targets)@)),
        forall|i: int|
            0 <= i < old(targets)@.len() ==> (#[trigger] old(targets)@[i]).name@ != target.name@,
    ensures
        in_order(target_views(final(targets)@)),
        forall|t: (u16, Seq<u8>)|
            target_views(final(targets)@).contains(t) <==> (target_views(
                old(targets)@,
            ).contains(t) || t == target@),
{
    let ghost before = target_views(targets@);
    let mut at: usize = 0;
    while at < targets.len()
        invariant_except_break
            at <= targets@.len(),
        invariant
            targets@ == old(targets)@,
            before == target_views(targets@),
            forall|i: int| 0 <= i < at ==> precedes((#[trigger] before[i]).1, target.name@),
            forall|i: int|
                0 <= i < targets@.len() ==> (#[trigger] targets@[i]).name@ != target.name@,
        ensures
            at <= targets@.len(),
            at < targets@.len() ==> precedes(target.name@, before[at as int].1),
        decreases targets@.len() - at,
    {
        if comes_before(&target.name, &targets[at].name) {
            break;
        }
        proof {
            law_order_is_total(target.name@, targets@[at as int].name@);
            assert(before[at as int].1 == targets@[at as int].name@);
        }
        at += 1;
    }
    let ghost added = target@;
    targets.insert(at, target);
    proof {
        let after = target_views(targets@);
        assert(after =~= before.insert(at as int, added));
        assert forall|i: int, j: int| 0 <= i < j < after.len() implies precedes(
            (#[trigger] after[i]).1,
            (#[trigger] after[j]).1,
        ) by {
            if i < at && j > at {
                assert(precedes(before[i].1, before[j - 1].1));
            } else if i == at && j > at {
                if j - 1 > at {
                    law_order_is_transitive(added.1, before[at as int].1, before[j - 1].1);
                }
            } else if i > at {
                assert(precedes(before[i - 1].1, before[j - 1].1));
            } else if j == at {
                assert(precedes(before[i].1, added.1));
            } else {
                assert(precedes(before[i].1, before[j].1));
            }
        }
        assert forall|t: (u16, Seq<u8>)|
            after.contains(t) <==> (before.contains(t) || t == added) by {
            if before.contains(t) {
                let i = choose|i: int| 0 <= i < before.len() && before[i] == t;
                if i < at {
                    assert(after[i] == t);
                } else {
                    assert(after[i + 1] == t);
                }
            }
            if t == added {
                assert(after[at as int] == t);
            }
            if after.contains(t) {
                let i = choose|i: int| 0 <= i < after.len() && after[i] == t;
                if i < at {
                    assert(before[i] == t);
                } else if i > at {
                    assert(before[i - 1] == t);
                }
            }
        }
    }
}

/// The names of the outputs of some streams.
fn list_names(base: &[u8], streams: &[StreamInfo]) -> (names: Vec<Vec<u8>>)
    requires
        all_known(streams@),
    ensures
        views(names@) == output_names(base@, streams@),
{
    let multi: bool = streams.len() > 1;
    let mut names: Vec<Vec<u8>> = Vec::new();
    let mut i: usize = 0;
    while i < streams.len()
        invariant
            i <= streams@.len(),
            names@.len() == i,
            multi == (streams@.len() > 1),
            all_known(streams@),
            forall|k: int|
                0 <= k < i ==> (#[trigger] names@[k])@ == output_name(base@, streams@[k], multi),
        decreases streams@.len() - i,
    {
        names.push(name_of(base, streams[i], multi));
        i += 1;
    }
    assert(views(names@) =~= output_names(base@, streams@));
    names
}

/// Finds the first name that repeats an earlier one.
fn find_repeat(names: &Vec<Vec<u8>>) -> (found: Option<(usize, usize)>)
    ensures
        match found {
            Some((i, j)) => i < j < names@.len() && first_repeat(views(names@), 0) == Some(
                (i as int, j as int),
            ),
            None => first_repeat(views(names@), 0) is None && distinct_below(
                views(names@),
                names@.len() as int,
            ),
        },
{
    let ghost all = views(names@);
    let mut j: usize = 0;
    while j < names.len()
        invariant
            j <= names@.len(),
            all == views(names@),
            first_repeat(all, 0) == first_repeat(all, j as int),
            distinct_below(all, j as int),
        decreases names@.len() - j,
    {
        let mut i: usize = 0;
        while i < j
            invariant
                i <= j < names@.len(),
                all == views(names@),
                first_repeat(all, 0) == first_repeat(all, j as int),
                first_index(all, all[j as int], 0) == first_index(all, all[j as int], i as int),
                forall|k: int| 0 <= k < i ==> #[trigger] all[k] != all[j as int],
            decreases j - i,
        {
            if same_bytes(&names[i], &names[j]) {
                assert(all[i as int] == all[j as int]);
                return Some((i, j));
            }
            assert(all[i as int] == names@[i as int]@);
            assert(all[j as int] == names@[j as int]@);
            i += 1;
        }
        j += 1;
    }
    None
}

/// Whether no later stream has the identifier of this one.
fn check_last(streams: &[StreamInfo], index: usize) -> (last: bool)
    requires
        index < streams@.len(),
    ensures
        last == is_last(streams@, index as int),
{
    let len: usize = streams.len();
    let mut k: usize = index + 1;
    while k < len
        invariant
            index < k <= len == streams@.len(),
            forall|m: int|
                index < m < k ==> (#[trigger] streams@[m]).pid != streams@[index as int].pid,
        decreases streams@.len() - k,
    {
        if streams[k].pid == streams[index].pid {
            return false;
        }
        k += 1;
    }
    true
}

/// Whether an identifier and a name are those of an output of one of the first
/// `count` streams.
spec fn is_target_below(
    base: Seq<u8>,
    streams: Seq<StreamInfo>,
    target: (u16, Seq<u8>),
    count: int,
) -> bool {
    exists|i: int|
        0 <= i < count && #[trigger] is_last(streams, i) && target == (
            streams[i].pid,
            output_name(base, streams[i], streams.len() > 1),
        )
}

/// The outputs of some streams, in the order of their names. Fails where two
/// streams have one name: the first that repeats an earlier one is given.
pub fn plan_output_paths(base: &[u8], streams: &[StreamInfo]) -> (result: Result<
    Vec<Target>,
    DemuxError,
>)
    requires
        all_known(streams@),
    ensures
        match planned(base@, streams@) {
            Ok(p) => result matches Ok(targets) && target_views(targets@) == p && is_listing(
                p,
                base@,
                streams@,
            ),
            Err(e) => result matches Err(err) && err == e,
        },
{
    let names = list_names(base, streams);
    if let Some((i, j)) = find_repeat(&names) {
        return Err(DemuxError::NameCollision(streams[i].pid, streams[j].pid));
    }
    let ghost all = views(names@);
    assert(names@.len() == all.len());
    let mut targets: Vec<Target> = Vec::new();
    let mut i: usize = 0;
    while i < streams.len()
        invariant
            i <= streams@.len(),
            all == views(names@),
            all == output_names(base@, streams@),
            names@.len() == streams@.len(),
            distinct_below(all, streams@.len() as int),
            in_order(target_views(targets@)),
            forall|t: (u16, Seq<u8>)|
                target_views(targets@).contains(t) <==> #[trigger] is_target_below(
                    base@,
                    streams@,
                    t,
                    i as int,
                ),
        decreases streams@.len() - i,
    {
        let ghost before = targets@;
        let ghost this = (streams@[i as int].pid, all[i as int]);
        if check_last(streams, i) {
            let name = slice_to_vec(&names[i]);
            proof {
                assert forall|k: int| 0 <= k < targets@.len() implies (
                #[trigger] targets@[k]).name@ != name@ by {
                    let t = target_views(targets@)[k];
                    assert(all[i as int] == names@[i as int]@);
                    assert(target_views(targets@).contains(t));
                    assert(is_target_below(base@, streams@, t, i as int));
                    let m = choose|m: int|
                        0 <= m < i && #[trigger] is_last(streams@, m) && t == (
                            streams@[m].pid,
                            output_name(base@, streams@[m], streams@.len() > 1),
                        );
                    assert(all[m] != all[i as int]);
                }
            }
            insert_in_order(&mut targets, Target { pid: streams[i].pid, name });
        }
        proof {
            assert forall|t: (u16, Seq<u8>)|
                target_views(targets@).contains(t) <==> #[trigger] is_target_below(
                    base@,
                    streams@,
                    t,
                    i + 1,
                ) by {
                assert(target_views(before).contains(t) == is_target_below(
                    base@,
                    streams@,
                    t,
                    i as int,
                ));
                if is_last(streams@, i as int) && t == this {
                    assert(is_target_below(base@, streams@, t, i + 1));
                }
            }
        }
        i += 1;
    }
    proof {
        let p = target_views(targets@);
        assert forall|t: (u16, Seq<u8>)|
            p.contains(t) <==> #[trigger] is_target(base@, streams@, t) by {
            assert(is_target_below(base@, streams@, t, i as int) == is_target(base@, streams@, t));
        }
        assert(is_listing(p, base@, streams@));
        law_listing_is_unique(p, listing(base@, streams@), base@, streams@);
    }
    Ok(targets)
}

/// The outputs of a file.
pub fn plan_targets(data: &[u8], input: &FilePath) -> (result: Result<Vec<Target>, DemuxError>)
    ensures
        match raw_plan(data@, input@) {
            Ok(p) => result matches Ok(targets) && target_views(targets@) == p && distinct_pids(p),
            Err(e) => result matches Err(err) && err == e,
        },
{
    let streams = analyze(data)?;
    let stem = match file_stem(input) {
        Ok(stem) => stem,
        Err(_) => {
            return Err(DemuxError::InputNameNotUtf8);
        },
    };
    let ghost bytes = stem@;
    match string_from_utf8(stem) {
        None => Err(DemuxError::InputNameNotUtf8),
        Some(base) => {
            proof {
                decode_utf8_encode_utf8(bytes);
            }
            let targets = plan_output_paths(base.as_str().as_bytes(), &streams)?;
            proof {
                law_one_output_per_stream(target_views(targets@), bytes, streams@);
            }
            Ok(targets)
        },
    }
}

/// Where the outputs of a file go, given the directory.
pub open spec fn raw_outputs(data: Seq<u8>, input: PathView, dir: Seq<u8>) -> Result<
    Seq<OutputView>,
    DemuxError,
> {
    match raw_plan(data, input) {
        Err(e) => Err(e),
        Ok(p) => Ok(p.map_values(|t: (u16, Seq<u8>)| OutputView::InDir(dir, t.1))),
    }
}

/// The contents of a list of paths.
pub open spec fn output_views(paths: Seq<OutputPath>) -> Seq<OutputView> {
    paths.map_values(|p: OutputPath| p@)
}

/// The paths of the raw outputs of `data` in `output_dir`, in order. Fails
/// where `data` has no streams to take out, where the input's name is not
/// text, and where two outputs would have one name.
pub fn plan_raw_outputs(data: &[u8], input: &FilePath, output_dir: &[u8]) -> (result: Result<
    Vec<OutputPath>,
    DemuxError,
>)
    ensures
        match raw_outputs(data@, input@, output_dir@) {
            Ok(p) => result matches Ok(paths) && output_views(paths@) == p,
            Err(e) => result matches Err(err) && err == e,
        },
{
    let targets = plan_targets(data, input)?;
    let mut paths: Vec<OutputPath> = Vec::new();
    let mut i: usize = 0;
    while i < targets.len()
        invariant
            i <= targets@.len(),
            paths@.len() == i,
            forall|k: int|
                0 <= k < i ==> (#[trigger] paths@[k])@ == OutputView::InDir(
                    output_dir@,
                    targets@[k].name@,
                ),
        decreases targets@.len() - i,
    {
        let name = slice_to_vec(&targets[i].name);
        paths.push(OutputPath::InDir(slice_to_vec(output_dir), name));
        i += 1;
    }
    proof {
        let p = target_views(targets@);
        assert(output_views(paths@) =~= p.map_values(
            |t: (u16, Seq<u8>)| OutputView::InDir(output_dir@, t.1),
        ));
    }
    Ok(paths)
}

} // verus!
