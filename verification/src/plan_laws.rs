//! What naming the raw outputs of a file promises.

use vstd::prelude::*;
use vstd::utf8::encode_utf8;
use vstd::utf8::valid_utf8;

use crate::analysis::streams_in;
use crate::error::DemuxError;
use crate::path_laws::is_cut;
use crate::path_laws::law_one_extension_is_cut_off;
use crate::paths::OutputView;
use crate::paths::PathView;
use crate::plan::distinct_below;
use crate::plan::first_repeat;
use crate::plan::in_order;
use crate::plan::is_last;
use crate::plan::is_listing;
use crate::plan::is_target;
use crate::plan::law_first_repeat_is_first;
use crate::plan::law_listing_is_unique;
use crate::plan::law_one_output_per_stream;
use crate::plan::listing;
use crate::plan::output_name;
use crate::plan::output_names;
use crate::plan::raw_outputs;
use crate::plan::raw_plan;
use crate::psi::extension_text;
use crate::psi::StreamInfo;
use crate::psi::StreamKind;
use crate::text::decimal;
use crate::text::hex4;
use crate::text::law_order_is_total;
use crate::text::law_order_is_transitive;
use crate::text::precedes;

verus! {

/// The extension of each kind of stream.
pub proof fn law_extensions_tell_the_kind()
    ensures
        extension_text(StreamKind::Mpeg1Video) == "m2v"@,
        extension_text(StreamKind::Mpeg2Video) == "m2v"@,
        extension_text(StreamKind::H264) == "h264"@,
        extension_text(StreamKind::H265) == "h265"@,
        extension_text(StreamKind::Aac) == "aac"@,
        extension_text(StreamKind::Mp3) == "mp3"@,
        extension_text(StreamKind::Ac3) == "ac3"@,
        extension_text(StreamKind::EAc3) == "eac3"@,
        extension_text(StreamKind::DvbSubtitle) == "dvbsub"@,
        extension_text(StreamKind::Teletext) == "teletext"@,
        extension_text(StreamKind::Lpcm) == "lpcm"@,
{
}

/// The name of the one output of a file: the base, a dot and the kind.
pub open spec fn single_name(base: Seq<u8>, stream: StreamInfo) -> Seq<u8> {
    base + seq![0x2Eu8] + encode_utf8(extension_text(stream.kind.unwrap()))
}

/// The name of one of several outputs: the base, `_p` and the program in
/// decimal, `_pid` and the identifier in hexadecimal, a dot and the kind.
pub open spec fn numbered_name(base: Seq<u8>, stream: StreamInfo) -> Seq<u8> {
    base + seq![0x5Fu8, 0x70u8] + decimal(stream.program_number as nat) + seq![
        0x5Fu8,
        0x70u8,
        0x69u8,
        0x64u8,
    ] + hex4(stream.pid) + seq![0x2Eu8] + encode_utf8(extension_text(stream.kind.unwrap()))
}

/// Puts an output into its place.
proof fn lemma_inserted(targets: Seq<(u16, Seq<u8>)>, target: (u16, Seq<u8>)) -> (after: Seq<
    (u16, Seq<u8>),
>)
    requires
        in_order(targets),
        forall|i: int| 0 <= i < targets.len() ==> (#[trigger] targets[i]).1 != target.1,
    ensures
        in_order(after),
        forall|t: (u16, Seq<u8>)| after.contains(t) <==> targets.contains(t) || t == target,
    decreases targets.len(),
{
    if targets.len() == 0 {
        let after = seq![target];
        assert(after[0] == target);
        assert forall|t: (u16, Seq<u8>)| after.contains(t) <==> targets.contains(t) || t == target by {
            if t == target {
                assert(after[0] == t);
            }
        }
        after
    } else {
        let first = targets[0];
        let rest = targets.drop_first();
        law_order_is_total(first.1, target.1);
        if precedes(target.1, first.1) {
            let after = seq![target] + targets;
            assert forall|i: int, j: int| 0 <= i < j < after.len() implies precedes(
                (#[trigger] after[i]).1,
                (#[trigger] after[j]).1,
            ) by {
                assert(after[j] == targets[j - 1]);
                if i > 0 {
                    assert(after[i] == targets[i - 1]);
                } else if j > 1 {
                    law_order_is_transitive(target.1, first.1, targets[j - 1].1);
                }
            }
            assert forall|t: (u16, Seq<u8>)| after.contains(t) <==> targets.contains(t) || t
                == target by {
                lemma_front(target, targets, t);
            }
            after
        } else {
            assert forall|i: int, j: int| 0 <= i < j < rest.len() implies precedes(
                (#[trigger] rest[i]).1,
                (#[trigger] rest[j]).1,
            ) by {
                assert(precedes(targets[i + 1].1, targets[j + 1].1));
            }
            assert forall|i: int| 0 <= i < rest.len() implies (#[trigger] rest[i]).1 != target.1 by {
                assert(rest[i] == targets[i + 1]);
            }
            let tail = lemma_inserted(rest, target);
            let after = seq![first] + tail;
            assert forall|i: int, j: int| 0 <= i < j < after.len() implies precedes(
                (#[trigger] after[i]).1,
                (#[trigger] after[j]).1,
            ) by {
                assert(after[j] == tail[j - 1]);
                if i > 0 {
                    assert(after[i] == tail[i - 1]);
                } else {
                    assert(tail.contains(tail[j - 1]));
                    if rest.contains(tail[j - 1]) {
                        let k = choose|k: int| 0 <= k < rest.len() && rest[k] == tail[j - 1];
                        assert(precedes(targets[0].1, targets[k + 1].1));
                    }
                }
            }
            assert(targets =~= seq![first] + rest);
            assert forall|t: (u16, Seq<u8>)| after.contains(t) <==> targets.contains(t) || t
                == target by {
                lemma_front(first, tail, t);
                lemma_front(first, rest, t);
                assert(tail.contains(t) <==> rest.contains(t) || t == target);
            }
            after
        }
    }
}

/// What a list holds that begins with an item.
proof fn lemma_front<T>(first: T, rest: Seq<T>, t: T)
    ensures
        (seq![first] + rest).contains(t) <==> t == first || rest.contains(t),
{
    let all = seq![first] + rest;
    if t == first {
        assert(all[0] == t);
    }
    if rest.contains(t) {
        let i = choose|i: int| 0 <= i < rest.len() && rest[i] == t;
        assert(all[i + 1] == t);
    }
    if all.contains(t) {
        let i = choose|i: int| 0 <= i < all.len() && all[i] == t;
        if i > 0 {
            assert(rest[i - 1] == t);
        }
    }
}

/// The output of one of the first `count` streams.
spec fn is_early_target(
    base: Seq<u8>,
    streams: Seq<StreamInfo>,
    target: (u16, Seq<u8>),
    count: int,
) -> bool {
    exists|i: int|
        0 <= i < count && #[trigger] is_last(streams, i) && target == (
            streams[i].pid,
            output_name(base, streams[i], streams.len() > 1),
        )
}

/// The outputs of the first `count` streams can be listed.
proof fn lemma_listed(base: Seq<u8>, streams: Seq<StreamInfo>, count: int) -> (targets: Seq<
    (u16, Seq<u8>),
>)
    requires
        0 <= count <= streams.len(),
        distinct_below(output_names(base, streams), streams.len() as int),
    ensures
        in_order(targets),
        forall|t: (u16, Seq<u8>)|
            targets.contains(t) <==> #[trigger] is_early_target(base, streams, t, count),
    decreases count,
{
    if count == 0 {
        Seq::empty()
    } else {
        let last = count - 1;
        let names = output_names(base, streams);
        let before = lemma_listed(base, streams, last);
        let this = (streams[last].pid, names[last]);
        assert forall|t: (u16, Seq<u8>)| #[trigger] is_early_target(base, streams, t, count) <==> (
        is_early_target(base, streams, t, last) || (is_last(streams, last) && t == this)) by {
            if is_last(streams, last) && t == this {
                assert(is_early_target(base, streams, t, count));
            }
        }
        if is_last(streams, last) {
            assert forall|i: int| 0 <= i < before.len() implies (#[trigger] before[i]).1 != this.1 by {
                assert(before.contains(before[i]));
                assert(is_early_target(base, streams, before[i], last));
                let k = choose|k: int|
                    0 <= k < last && #[trigger] is_last(streams, k) && before[i] == (
                        streams[k].pid,
                        output_name(base, streams[k], streams.len() > 1),
                    );
                assert(names[k] != names[last]);
            }
            lemma_inserted(before, this)
        } else {
            before
        }
    }
}

/// A plan that is made lists exactly the outputs.
proof fn lemma_plan_is_listing(base: Seq<u8>, streams: Seq<StreamInfo>)
    requires
        first_repeat(output_names(base, streams), 0) is None,
    ensures
        is_listing(listing(base, streams), base, streams),
{
    law_first_repeat_is_first(output_names(base, streams));
    let targets = lemma_listed(base, streams, streams.len() as int);
    assert forall|t: (u16, Seq<u8>)|
        targets.contains(t) <==> #[trigger] is_target(base, streams, t) by {
        assert(is_early_target(base, streams, t, streams.len() as int) == is_target(
            base,
            streams,
            t,
        ));
    }
    assert(is_listing(targets, base, streams));
}

/// A file with one stream has one output, named after the file: its name, with
/// the last extension alone taken off, and the extension of the stream's kind.
pub proof fn law_one_stream_takes_the_name(
    data: Seq<u8>,
    input: PathView,
    base: Seq<u8>,
    extension: Option<Seq<u8>>,
    stream: StreamInfo,
)
    requires
        streams_in(data) == Ok::<Seq<StreamInfo>, DemuxError>(seq![stream]),
        input.name matches Some(name) && is_cut(name, base, extension),
        valid_utf8(base),
    ensures
        raw_plan(data, input) == Ok::<Seq<(u16, Seq<u8>)>, DemuxError>(
            seq![(stream.pid, single_name(base, stream))],
        ),
{
    law_one_extension_is_cut_off(input.name.unwrap(), base, extension);
    let streams = seq![stream];
    let only = seq![(stream.pid, single_name(base, stream))];
    law_first_repeat_is_first(output_names(base, streams));
    assert(streams[0] == stream);
    assert(is_last(streams, 0));
    assert forall|t: (u16, Seq<u8>)|
        only.contains(t) <==> #[trigger] is_target(base, streams, t) by {
        if t == only[0] {
            assert(only.contains(t));
        }
    }
    assert(is_listing(only, base, streams));
    lemma_plan_is_listing(base, streams);
    law_listing_is_unique(only, listing(base, streams), base, streams);
}

/// In a file with several streams every stream has an output of its own, with
/// its program and its identifier in the name; of several entries for one
/// identifier the last counts. There are no other outputs, and they are in the
/// order of their names.
pub proof fn law_several_streams_are_told_apart(
    data: Seq<u8>,
    input: PathView,
    base: Seq<u8>,
    extension: Option<Seq<u8>>,
)
    requires
        streams_in(data) is Ok,
        streams_in(data).unwrap().len() > 1,
        input.name matches Some(name) && is_cut(name, base, extension),
        valid_utf8(base),
        raw_plan(data, input) is Ok,
    ensures
        ({
            let streams = streams_in(data).unwrap();
            let targets = raw_plan(data, input).unwrap();
            &&& forall|i: int|
                0 <= i < streams.len() && (forall|k: int|
                    i < k < streams.len() ==> (#[trigger] streams[k]).pid != streams[i].pid)
                    ==> targets.contains(
                    ((#[trigger] streams[i]).pid, numbered_name(base, streams[i])),
                )
            &&& forall|t: (u16, Seq<u8>)| #[trigger]
                targets.contains(t) ==> exists|i: int|
                    0 <= i < streams.len() && t == (
                        (#[trigger] streams[i]).pid,
                        numbered_name(base, streams[i]),
                    )
            &&& forall|i: int, j: int|
                0 <= i < j < targets.len() ==> precedes(
                    (#[trigger] targets[i]).1,
                    (#[trigger] targets[j]).1,
                ) && targets[i].0 != targets[j].0
        }),
{
    law_one_extension_is_cut_off(input.name.unwrap(), base, extension);
    let streams = streams_in(data).unwrap();
    let targets = raw_plan(data, input).unwrap();
    lemma_plan_is_listing(base, streams);
    law_one_output_per_stream(targets, base, streams);
    assert forall|i: int| 0 <= i < streams.len() && is_last(streams, i) implies targets.contains(
        ((#[trigger] streams[i]).pid, numbered_name(base, streams[i])),
    ) by {
        assert(is_target(base, streams, (streams[i].pid, numbered_name(base, streams[i]))));
    }
    assert forall|t: (u16, Seq<u8>)| #[trigger] targets.contains(t) implies exists|i: int|
        0 <= i < streams.len() && t == (
            (#[trigger] streams[i]).pid,
            numbered_name(base, streams[i]),
        ) by {
        assert(is_target(base, streams, t));
    }
}

/// A plan is refused where the base of the name is not text, and where two
/// streams would have one name; the error tells the identifiers of the first
/// two that would.
pub proof fn law_plan_is_refused_for_its_names(
    data: Seq<u8>,
    input: PathView,
    base: Seq<u8>,
    extension: Option<Seq<u8>>,
    i: int,
    j: int,
)
    requires
        streams_in(data) is Ok,
        input.name matches Some(name) && is_cut(name, base, extension),
        0 <= i < j < streams_in(data).unwrap().len(),
    ensures
        ({
            let streams = streams_in(data).unwrap();
            let name = |k: int| numbered_name(base, streams[k]);
            &&& !valid_utf8(base) ==> raw_plan(data, input) == Err::<
                Seq<(u16, Seq<u8>)>,
                DemuxError,
            >(DemuxError::InputNameNotUtf8)
            &&& valid_utf8(base) && name(i) == name(j) && (forall|a: int, b: int|
                0 <= a < b < j ==> #[trigger] name(a) != #[trigger] name(b)) && (forall|a: int|
                0 <= a < i ==> #[trigger] name(a) != name(j)) ==> raw_plan(data, input) == Err::<
                Seq<(u16, Seq<u8>)>,
                DemuxError,
            >(DemuxError::NameCollision(streams[i].pid, streams[j].pid))
        }),
{
    law_one_extension_is_cut_off(input.name.unwrap(), base, extension);
    let streams = streams_in(data).unwrap();
    let names = output_names(base, streams);
    let name = |k: int| numbered_name(base, streams[k]);
    law_first_repeat_is_first(names);
    assert forall|k: int| 0 <= k < names.len() implies #[trigger] names[k] == name(k) by {}
    if name(i) == name(j) && (forall|a: int, b: int|
        0 <= a < b < j ==> #[trigger] name(a) != #[trigger] name(b)) && (forall|a: int|
        0 <= a < i ==> #[trigger] name(a) != name(j)) {
        assert(names[i] == names[j]);
        assert(first_repeat(names, 0) is Some);
        let (a, b) = first_repeat(names, 0).unwrap();
        assert(names[a] == name(a) && names[b] == name(b));
        if b < j {
            assert(name(a) != name(b));
        }
        if b > j {
            assert(names[i] != names[j]);
        }
        if a < i {
            assert(name(a) != name(j));
        }
        if a > i {
            assert(name(i) != name(a));
        }
    }
}

/// Where the streams of a file cannot be told, neither can its outputs; and an
/// input without a file name has none.
pub proof fn law_plan_needs_streams_and_a_name(data: Seq<u8>, input: PathView)
    ensures
        streams_in(data) matches Err(e) ==> raw_plan(data, input) == Err::<
            Seq<(u16, Seq<u8>)>,
            DemuxError,
        >(e),
        streams_in(data) is Ok && input.name is None ==> raw_plan(data, input) == Err::<
            Seq<(u16, Seq<u8>)>,
            DemuxError,
        >(DemuxError::InputNameNotUtf8),
{
}

/// All outputs lie in the directory that is given, under their planned names
/// and in their order.
pub proof fn law_raw_outputs_lie_in_the_directory(data: Seq<u8>, input: PathView, dir: Seq<u8>)
    ensures
        match raw_plan(data, input) {
            Err(e) => raw_outputs(data, input, dir) == Err::<Seq<OutputView>, DemuxError>(e),
            Ok(targets) => {
                &&& raw_outputs(data, input, dir) matches Ok(paths)
                &&& paths.len() == targets.len()
                &&& forall|i: int|
                    0 <= i < paths.len() ==> #[trigger] paths[i] == OutputView::InDir(
                        dir,
                        targets[i].1,
                    )
            },
        },
{
}

} // verus!
