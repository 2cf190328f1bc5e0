//! What taking streams out of a transport stream promises.

use vstd::prelude::*;

use crate::bytes::joined;
use crate::bytes::lemma_joined_concat;
use crate::demux::all_delivered;
use crate::demux::demuxed;
use crate::demux::fresh_streams;
use crate::demux::stream_verdict;
use crate::demux::verdict_from;
use crate::error::DemuxError;
use crate::packet::counter_of;
use crate::packet::has_transport_error;
use crate::packet::payload_of;
use crate::packet::pid_of;
use crate::packet::starts_unit;
use crate::paths::PathView;
use crate::pes::begun;
use crate::pes::continued;
use crate::pes::fresh_stream;
use crate::pes::header_len;
use crate::pes::law_pes_cuts_do_not_matter;
use crate::pes::next_counter;
use crate::pes::received;
use crate::pes::PesState;
use crate::pes_laws::all_elementary;
use crate::pes_laws::all_whole;
use crate::pes_laws::between_packets;
use crate::pes_laws::law_stream_is_its_pes_packets;
use crate::pes_laws::pes_packets;
use crate::pes_laws::run_of;
use crate::pes_laws::run_on;
use crate::plan::raw_plan;
use crate::sync::packets_of;

verus! {

/// What the packets of one identifier make of its stream.
pub open spec fn own_run(state: PesState, packets: Seq<Seq<u8>>, pid: u16) -> Result<
    PesState,
    DemuxError,
>
    decreases packets.len(),
{
    if packets.len() == 0 {
        Ok(state)
    } else {
        match own_run(state, packets.drop_last(), pid) {
            Err(e) => Err(e),
            Ok(before) => if pid_of(packets.last()) != pid {
                Ok(before)
            } else {
                match received(before, packets.last()) {
                    (after, Ok(())) => Ok(after),
                    (_, Err(e)) => Err(e),
                }
            },
        }
    }
}

/// Streams do not mix: where all packets are taken, each stream is what its
/// own packets make of it.
pub proof fn law_streams_do_not_mix(streams: Map<u16, PesState>, packets: Seq<Seq<u8>>, pid: u16)
    requires
        streams.contains_key(pid),
    ensures
        all_delivered(streams, packets) matches Ok(after) ==> after.contains_key(pid) && own_run(
            streams[pid],
            packets,
            pid,
        ) == Ok::<PesState, DemuxError>(after[pid]),
    decreases packets.len(),
{
    if packets.len() > 0 {
        law_streams_do_not_mix(streams, packets.drop_last(), pid);
    }
}

/// Reading fails only where one of the streams fails on its own packets.
pub proof fn law_failure_has_a_stream(streams: Map<u16, PesState>, packets: Seq<Seq<u8>>) -> (pid:
    u16)
    requires
        all_delivered(streams, packets) is Err,
    ensures
        streams.contains_key(pid),
        own_run(streams[pid], packets, pid) is Err,
    decreases packets.len(),
{
    let head = packets.drop_last();
    if all_delivered(streams, head) is Err {
        law_failure_has_a_stream(streams, head)
    } else {
        let pid = pid_of(packets.last());
        lemma_same_keys(streams, head);
        law_streams_do_not_mix(streams, head, pid);
        pid
    }
}

/// Delivering packets keeps the set of streams.
proof fn lemma_same_keys(streams: Map<u16, PesState>, packets: Seq<Seq<u8>>)
    ensures
        all_delivered(streams, packets) matches Ok(after) ==> forall|pid: u16|
            after.contains_key(pid) <==> #[trigger] streams.contains_key(pid),
    decreases packets.len(),
{
    if packets.len() > 0 {
        lemma_same_keys(streams, packets.drop_last());
    }
}

/// Where a run of packets is taken, so is every first part of it.
proof fn lemma_taken_prefix(streams: Map<u16, PesState>, packets: Seq<Seq<u8>>, count: int)
    requires
        0 <= count <= packets.len(),
        all_delivered(streams, packets) is Ok,
    ensures
        all_delivered(streams, packets.take(count)) is Ok,
    decreases packets.len(),
{
    if count == packets.len() {
        assert(packets.take(count) =~= packets);
    } else {
        lemma_taken_prefix(streams, packets.drop_last(), count);
        assert(packets.drop_last().take(count) =~= packets.take(count));
    }
}

/// A damaged packet in one of the streams is never passed over.
pub proof fn law_damaged_packet_is_refused(
    streams: Map<u16, PesState>,
    packets: Seq<Seq<u8>>,
    index: int,
)
    requires
        0 <= index < packets.len(),
        streams.contains_key(pid_of(packets[index])),
        payload_of(packets[index]) is Some,
        has_transport_error(packets[index]),
    ensures
        all_delivered(streams, packets) is Err,
{
    if all_delivered(streams, packets) is Ok {
        lemma_taken_prefix(streams, packets, index + 1);
        lemma_taken_prefix(streams, packets, index);
        lemma_same_keys(streams, packets.take(index));
        assert(packets.take(index + 1).drop_last() =~= packets.take(index));
        assert(packets.take(index + 1).last() == packets[index]);
    }
}

/// Packets of other streams, and packets without a payload, leave a stream as
/// it is.
proof fn lemma_state_stays(
    state: PesState,
    packets: Seq<Seq<u8>>,
    pid: u16,
    from: int,
    to: int,
)
    requires
        0 <= from <= to <= packets.len(),
        forall|k: int|
            from <= k < to ==> pid_of(#[trigger] packets[k]) != pid || payload_of(packets[k]) is None,
    ensures
        own_run(state, packets.take(to), pid) == own_run(state, packets.take(from), pid),
    decreases to - from,
{
    if from < to {
        lemma_state_stays(state, packets, pid, from, to - 1);
        assert(packets.take(to).drop_last() =~= packets.take(to - 1));
        assert(packets.take(to).last() == packets[to - 1]);
    }
}

/// A missing packet in one of the streams is never passed over: reading fails
/// where two packets of a stream follow each other, with no payload of it
/// between them, and the counter neither stays nor goes one up.
pub proof fn law_gap_is_refused(
    streams: Map<u16, PesState>,
    packets: Seq<Seq<u8>>,
    first: int,
    second: int,
)
    requires
        0 <= first < second < packets.len(),
        streams.contains_key(pid_of(packets[first])),
        pid_of(packets[second]) == pid_of(packets[first]),
        payload_of(packets[first]) is Some,
        payload_of(packets[second]) is Some,
        forall|k: int|
            first < k < second ==> pid_of(#[trigger] packets[k]) != pid_of(packets[first])
                || payload_of(packets[k]) is None,
        counter_of(packets[second]) != counter_of(packets[first]),
        counter_of(packets[second]) != next_counter(counter_of(packets[first])),
    ensures
        all_delivered(streams, packets) is Err,
{
    if all_delivered(streams, packets) is Ok {
        let pid = pid_of(packets[first]);
        let state = streams[pid];
        lemma_taken_prefix(streams, packets, first);
        lemma_taken_prefix(streams, packets, first + 1);
        lemma_taken_prefix(streams, packets, second + 1);
        law_streams_do_not_mix(streams, packets.take(first), pid);
        law_streams_do_not_mix(streams, packets.take(first + 1), pid);
        law_streams_do_not_mix(streams, packets.take(second + 1), pid);
        assert(packets.take(first + 1).drop_last() =~= packets.take(first));
        assert(packets.take(first + 1).last() == packets[first]);
        lemma_state_stays(state, packets, pid, first + 1, second);
        assert(packets.take(second + 1).drop_last() =~= packets.take(second));
        assert(packets.take(second + 1).last() == packets[second]);
    }
}

/// A packet that begins a PES packet is refused where its stream stands inside
/// a PES header, unless it is a duplicate of the packet before it.
pub proof fn law_packet_inside_header_is_refused(
    streams: Map<u16, PesState>,
    packets: Seq<Seq<u8>>,
    index: int,
)
    requires
        0 <= index < packets.len(),
        streams.contains_key(pid_of(packets[index])),
        payload_of(packets[index]) is Some,
        starts_unit(packets[index]),
        own_run(
            streams[pid_of(packets[index])],
            packets.take(index),
            pid_of(packets[index]),
        ) matches Ok(state) && state.awaiting && state.last_counter != Some(
            counter_of(packets[index]),
        ),
    ensures
        all_delivered(streams, packets) is Err,
{
    if all_delivered(streams, packets) is Ok {
        let pid = pid_of(packets[index]);
        lemma_taken_prefix(streams, packets, index);
        lemma_taken_prefix(streams, packets, index + 1);
        law_streams_do_not_mix(streams, packets.take(index), pid);
        law_streams_do_not_mix(streams, packets.take(index + 1), pid);
        assert(packets.take(index + 1).drop_last() =~= packets.take(index));
        assert(packets.take(index + 1).last() == packets[index]);
    }
}

/// An incomplete PES header in one of the streams is never passed over: reading
/// fails where a packet begins a PES packet, its payload does not hold the
/// whole header, and the next payload of the stream begins another one. Neither
/// packet is a duplicate of the one before it.
pub proof fn law_cut_header_is_refused(
    streams: Map<u16, PesState>,
    packets: Seq<Seq<u8>>,
    first: int,
    second: int,
)
    requires
        0 <= first < second < packets.len(),
        streams.contains_key(pid_of(packets[first])),
        pid_of(packets[second]) == pid_of(packets[first]),
        starts_unit(packets[first]),
        starts_unit(packets[second]),
        payload_of(packets[first]) matches Some(payload) && (payload.len() < 9 || payload.len()
            < header_len(payload)),
        payload_of(packets[second]) is Some,
        forall|k: int|
            first < k < second ==> pid_of(#[trigger] packets[k]) != pid_of(packets[first])
                || payload_of(packets[k]) is None,
        own_run(
            streams[pid_of(packets[first])],
            packets.take(first),
            pid_of(packets[first]),
        ) matches Ok(state) ==> state.last_counter != Some(counter_of(packets[first])),
        counter_of(packets[second]) != counter_of(packets[first]),
    ensures
        all_delivered(streams, packets) is Err,
{
    if all_delivered(streams, packets) is Ok {
        let pid = pid_of(packets[first]);
        let state = streams[pid];
        let payload = payload_of(packets[first]).unwrap();
        lemma_taken_prefix(streams, packets, first);
        lemma_taken_prefix(streams, packets, first + 1);
        law_streams_do_not_mix(streams, packets.take(first), pid);
        law_streams_do_not_mix(streams, packets.take(first + 1), pid);
        assert(packets.take(first + 1).drop_last() =~= packets.take(first));
        assert(packets.take(first + 1).last() == packets[first]);
        assert(Seq::<u8>::empty() + payload =~= payload);
        lemma_state_stays(state, packets, pid, first + 1, second);
        law_packet_inside_header_is_refused(streams, packets, second);
    }
}

/// A verdict over all streams is one over each of them.
proof fn lemma_verdict_of_each(
    targets: Seq<(u16, Seq<u8>)>,
    streams: Map<u16, PesState>,
    from: int,
    index: int,
)
    requires
        0 <= from <= index < targets.len(),
        verdict_from(targets, streams, from) is Ok,
    ensures
        stream_verdict(targets[index].0, streams[targets[index].0]) is Ok,
    decreases index - from,
{
    if from < index {
        lemma_verdict_of_each(targets, streams, from + 1, index);
    }
}

/// What comes out is what was planned: the same names, in the same order, and
/// none of the outputs is empty.
pub proof fn law_outputs_are_as_planned(data: Seq<u8>, input: PathView)
    ensures
        demuxed(data, input) matches Ok(list) ==> {
            &&& raw_plan(data, input) matches Ok(targets)
            &&& list.len() == targets.len()
            &&& forall|i: int|
                0 <= i < list.len() ==> (#[trigger] list[i]).0 == targets[i].1 && list[i].1.len() > 0
        },
{
    if let Ok(list) = demuxed(data, input) {
        let targets = raw_plan(data, input).unwrap();
        let packets = packets_of(data).unwrap();
        let streams = all_delivered(fresh_streams(targets), packets).unwrap();
        assert forall|i: int| 0 <= i < list.len() implies (#[trigger] list[i]).0 == targets[i].1
            && list[i].1.len() > 0 by {
            lemma_verdict_of_each(targets, streams, 0, i);
        }
    }
}

/// A planned stream none of whose packets carries a payload is refused, and so
/// is everything else in the file.
pub proof fn law_silent_stream_is_refused(data: Seq<u8>, input: PathView, index: int)
    requires
        raw_plan(data, input) is Ok,
        packets_of(data) is Ok,
        ({
            let targets = raw_plan(data, input).unwrap();
            let packets = packets_of(data).unwrap();
            &&& 0 <= index < targets.len()
            &&& forall|k: int|
                0 <= k < packets.len() ==> pid_of(#[trigger] packets[k]) != targets[index].0
                    || payload_of(packets[k]) is None
        }),
    ensures
        demuxed(data, input) is Err,
{
    if let Ok(list) = demuxed(data, input) {
        let targets = raw_plan(data, input).unwrap();
        let packets = packets_of(data).unwrap();
        let start = fresh_streams(targets);
        let streams = all_delivered(start, packets).unwrap();
        let pid = targets[index].0;
        assert(start.contains_key(pid));
        law_streams_do_not_mix(start, packets, pid);
        lemma_silent_run(packets, pid);
        lemma_verdict_of_each(targets, streams, 0, index);
    }
}

/// A stream without payloads stays as it is.
proof fn lemma_silent_run(packets: Seq<Seq<u8>>, pid: u16)
    requires
        forall|k: int|
            0 <= k < packets.len() ==> pid_of(#[trigger] packets[k]) != pid || payload_of(
                packets[k],
            ) is None,
    ensures
        own_run(fresh_stream(), packets, pid) == Ok::<PesState, DemuxError>(fresh_stream()),
    decreases packets.len(),
{
    if packets.len() > 0 {
        let head = packets.drop_last();
        assert forall|k: int| 0 <= k < head.len() implies pid_of(#[trigger] head[k]) != pid
            || payload_of(head[k]) is None by {
            assert(head[k] == packets[k]);
        }
        lemma_silent_run(head, pid);
        assert(packets.last() == packets[packets.len() - 1]);
    }
}

/// Payloads go on with a PES packet one after the other.
pub open spec fn continued_all(state: PesState, payloads: Seq<Seq<u8>>) -> (
    PesState,
    Result<(), DemuxError>,
)
    decreases payloads.len(),
{
    if payloads.len() == 0 {
        (state, Ok(()))
    } else {
        match continued_all(state, payloads.drop_last()) {
            (after, Ok(())) => continued(after, payloads.last()),
            (after, Err(e)) => (after, Err(e)),
        }
    }
}

/// A PES packet that can be taken whole can be taken in any number of
/// payloads, and comes to the same.
pub proof fn law_pes_packet_in_pieces(state: PesState, first: Seq<u8>, payloads: Seq<Seq<u8>>)
    requires
        begun(state, first + joined(payloads)).1 is Ok,
    ensures
        begun(state, first).1 is Ok,
        continued_all(begun(state, first).0, payloads) == begun(state, first + joined(payloads)),
    decreases payloads.len(),
{
    let start = begun(state, first).0;
    if payloads.len() == 0 {
        assert(first + joined(payloads) =~= first);
    } else {
        let head = payloads.drop_last();
        let last = payloads.last();
        assert(payloads =~= head + seq![last]);
        lemma_joined_concat(head, seq![last]);
        reveal_with_fuel(joined, 2);
        assert(joined(seq![last]) =~= last);
        let so_far = first + joined(head);
        assert(first + joined(payloads) =~= so_far + last);
        lemma_prefix_is_taken(state, so_far, last);
        law_pes_packet_in_pieces(state, first, head);
        law_pes_cuts_do_not_matter(state, so_far, last);
    }
}

/// Where a PES packet can be taken, so can every first part of it.
pub proof fn lemma_prefix_is_taken(state: PesState, a: Seq<u8>, b: Seq<u8>)
    requires
        begun(state, a + b).1 is Ok,
    ensures
        begun(state, a).1 is Ok,
{
    assert(Seq::<u8>::empty() + a =~= a);
    assert(Seq::<u8>::empty() + (a + b) =~= a + b);
    if a.len() >= 9 {
        assert(header_len(a + b) == header_len(a));
    }
}

/// The packets of one identifier that carry a payload, in order.
pub open spec fn own_packets(packets: Seq<Seq<u8>>, pid: u16) -> Seq<Seq<u8>> {
    packets.filter(|p: Seq<u8>| pid_of(p) == pid && payload_of(p) is Some)
}

/// A stream is what its own packets with a payload make of it.
proof fn lemma_own_run(state: PesState, packets: Seq<Seq<u8>>, pid: u16)
    ensures
        own_run(state, packets, pid) == run_of(state, own_packets(packets, pid)),
    decreases packets.len(),
{
    let own = |p: Seq<u8>| pid_of(p) == pid && payload_of(p) is Some;
    reveal(Seq::filter);
    if packets.len() > 0 {
        let head = packets.drop_last();
        let last = packets.last();
        lemma_own_run(state, head, pid);
        if own(last) {
            assert(own_packets(packets, pid) =~= own_packets(head, pid).push(last));
            assert(own_packets(packets, pid).drop_last() =~= own_packets(head, pid));
        } else {
            assert(own_packets(packets, pid) =~= own_packets(head, pid));
        }
    } else {
        assert(own_packets(packets, pid) =~= Seq::<Seq<u8>>::empty());
    }
}

/// Every output holds what the packets of its own stream give, all of it and
/// nothing else.
pub proof fn law_output_is_its_own_stream(data: Seq<u8>, input: PathView, index: int)
    requires
        demuxed(data, input) is Ok,
        0 <= index < demuxed(data, input).unwrap().len(),
    ensures
        ({
            let targets = raw_plan(data, input).unwrap();
            let own = own_packets(packets_of(data).unwrap(), targets[index].0);
            run_of(fresh_stream(), own) matches Ok(state) && demuxed(data, input).unwrap()[index] == (
                targets[index].1,
                state.output,
            )
        }),
{
    let targets = raw_plan(data, input).unwrap();
    let packets = packets_of(data).unwrap();
    let start = fresh_streams(targets);
    let pid = targets[index].0;
    assert(start.contains_key(pid));
    law_streams_do_not_mix(start, packets, pid);
    lemma_own_run(fresh_stream(), packets, pid);
}

/// The streams of an undamaged file come out: where the packets of every
/// planned stream follow each other without damage or loss, and carry whole PES
/// packets with elementary bytes in them, the outputs are those bytes, those of
/// each stream one after the other, under the planned names.
pub proof fn law_undamaged_streams_come_out(data: Seq<u8>, input: PathView)
    requires
        raw_plan(data, input) is Ok,
        packets_of(data) is Ok,
        ({
            let targets = raw_plan(data, input).unwrap();
            let packets = packets_of(data).unwrap();
            forall|i: int|
                0 <= i < targets.len() ==> {
                    let own = own_packets(packets, (#[trigger] targets[i]).0);
                    run_on(own) && all_whole(pes_packets(own)) && all_elementary(
                        pes_packets(own),
                    ).len() > 0
                }
        }),
    ensures
        ({
            let targets = raw_plan(data, input).unwrap();
            let packets = packets_of(data).unwrap();
            &&& demuxed(data, input) matches Ok(list)
            &&& list.len() == targets.len()
            &&& forall|i: int|
                0 <= i < list.len() ==> #[trigger] list[i] == (
                    targets[i].1,
                    all_elementary(pes_packets(own_packets(packets, targets[i].0))),
                )
        }),
{
    let targets = raw_plan(data, input).unwrap();
    let packets = packets_of(data).unwrap();
    let start = fresh_streams(targets);
    assert forall|i: int| 0 <= i < targets.len() implies own_run(
        fresh_stream(),
        packets,
        (#[trigger] targets[i]).0,
    ) matches Ok(state) && between_packets(state) && state.output == all_elementary(
        pes_packets(own_packets(packets, targets[i].0)),
    ) && state.output.len() > 0 by {
        let own = own_packets(packets, targets[i].0);
        lemma_own_run(fresh_stream(), packets, targets[i].0);
        law_stream_is_its_pes_packets(own);
    }
    if all_delivered(start, packets) is Err {
        let pid = law_failure_has_a_stream(start, packets);
        let i = choose|i: int| 0 <= i < targets.len() && (#[trigger] targets[i]).0 == pid;
        assert(own_run(fresh_stream(), packets, targets[i].0) is Ok);
    }
    let streams = all_delivered(start, packets).unwrap();
    assert forall|i: int| 0 <= i < targets.len() implies stream_verdict(
        (#[trigger] targets[i]).0,
        streams[targets[i].0],
    ) is Ok && streams[targets[i].0].output == all_elementary(
        pes_packets(own_packets(packets, targets[i].0)),
    ) by {
        assert(start.contains_key(targets[i].0));
        law_streams_do_not_mix(start, packets, targets[i].0);
    }
    lemma_all_kept(targets, streams, 0);
}

/// Where every stream may be kept, all are.
proof fn lemma_all_kept(targets: Seq<(u16, Seq<u8>)>, streams: Map<u16, PesState>, from: int)
    requires
        0 <= from <= targets.len(),
        forall|i: int|
            0 <= i < targets.len() ==> stream_verdict(
                (#[trigger] targets[i]).0,
                streams[targets[i].0],
            ) is Ok,
    ensures
        verdict_from(targets, streams, from) is Ok,
    decreases targets.len() - from,
{
    if from < targets.len() {
        assert(stream_verdict(targets[from].0, streams[targets[from].0]) is Ok);
        lemma_all_kept(targets, streams, from + 1);
    }
}

/// A stream that ends inside a PES header is refused, and one without
/// elementary bytes is.
pub proof fn law_cut_and_empty_streams_are_refused(data: Seq<u8>, input: PathView, index: int)
    requires
        raw_plan(data, input) is Ok,
        packets_of(data) is Ok,
        0 <= index < raw_plan(data, input).unwrap().len(),
        ({
            let pid = raw_plan(data, input).unwrap()[index].0;
            run_of(fresh_stream(), own_packets(packets_of(data).unwrap(), pid)) matches Ok(state)
                ==> state.awaiting || state.output.len() == 0
        }),
    ensures
        demuxed(data, input) is Err,
{
    if demuxed(data, input) is Ok {
        let targets = raw_plan(data, input).unwrap();
        let packets = packets_of(data).unwrap();
        let start = fresh_streams(targets);
        let streams = all_delivered(start, packets).unwrap();
        let pid = targets[index].0;
        assert(start.contains_key(pid));
        law_streams_do_not_mix(start, packets, pid);
        lemma_own_run(fresh_stream(), packets, pid);
        lemma_verdict_of_each(targets, streams, 0, index);
    }
}

/// A packet that its stream cannot take leaves the stream as it is, and the
/// error tells why: the packet is marked as damaged, or its counter is neither
/// that of the packet before it nor the one due after that.
pub proof fn law_refused_packet_changes_nothing(state: PesState, packet: Seq<u8>)
    requires
        payload_of(packet) is Some,
    ensures
        has_transport_error(packet) ==> received(state, packet) == (
            state,
            Err::<(), DemuxError>(DemuxError::TransportError(pid_of(packet))),
        ),
        !has_transport_error(packet) ==> (state.last_counter matches Some(last) ==> last < 16
            ==> counter_of(packet) != last ==> counter_of(packet) != (last + 1) % 16 ==> received(
            state,
            packet,
        ) == (
            state,
            Err::<(), DemuxError>(
                DemuxError::ContinuityMismatch(
                    pid_of(packet),
                    ((last + 1) % 16) as u8,
                    counter_of(packet),
                ),
            ),
        )),
{
}

/// Packets reach their streams in order: the first that its stream cannot take
/// decides, whatever follows it, and packets of other streams reach none.
pub proof fn law_first_refusal_decides(
    streams: Map<u16, PesState>,
    packets: Seq<Seq<u8>>,
    packet: Seq<u8>,
)
    ensures
        all_delivered(streams, packets) matches Err(e) ==> all_delivered(
            streams,
            packets.push(packet),
        ) == Err::<Map<u16, PesState>, DemuxError>(e),
        all_delivered(streams, packets) matches Ok(before) ==> {
            let pid = pid_of(packet);
            let after = all_delivered(streams, packets.push(packet));
            &&& !before.contains_key(pid) ==> after == Ok::<Map<u16, PesState>, DemuxError>(before)
            &&& before.contains_key(pid) ==> (received(before[pid], packet).1 matches Err(e) ==> after
                == Err::<Map<u16, PesState>, DemuxError>(e))
            &&& before.contains_key(pid) ==> received(before[pid], packet).1 is Ok ==> after == Ok::<
                Map<u16, PesState>,
                DemuxError,
            >(before.insert(pid, received(before[pid], packet).0))
        },
        all_delivered(streams, Seq::empty()) == Ok::<Map<u16, PesState>, DemuxError>(streams),
{
    assert(packets.push(packet).drop_last() =~= packets);
}

/// Of streams that may not be kept the first in the order of the outputs is
/// named, with the reason: it ends inside a PES header, or it is empty.
pub proof fn law_first_bad_stream_is_named(
    targets: Seq<(u16, Seq<u8>)>,
    streams: Map<u16, PesState>,
    index: int,
)
    requires
        0 <= index < targets.len(),
        forall|k: int|
            0 <= k < index ==> !streams[(#[trigger] targets[k]).0].awaiting
                && streams[targets[k].0].output.len() > 0,
        streams[targets[index].0].awaiting || streams[targets[index].0].output.len() == 0,
    ensures
        verdict_from(targets, streams, 0) == Err::<(), DemuxError>(
            if streams[targets[index].0].awaiting {
                DemuxError::IncompletePesHeader(targets[index].0)
            } else {
                DemuxError::EmptyStream(targets[index].0)
            },
        ),
{
    lemma_verdict_reaches(targets, streams, index, 0);
}

/// The verdict gets as far as the first bad stream.
proof fn lemma_verdict_reaches(
    targets: Seq<(u16, Seq<u8>)>,
    streams: Map<u16, PesState>,
    index: int,
    from: int,
)
    requires
        0 <= from <= index < targets.len(),
        forall|k: int|
            0 <= k < index ==> !streams[(#[trigger] targets[k]).0].awaiting
                && streams[targets[k].0].output.len() > 0,
    ensures
        verdict_from(targets, streams, from) == verdict_from(targets, streams, index),
    decreases index - from,
{
    if from < index {
        assert(!streams[targets[from].0].awaiting);
        lemma_verdict_reaches(targets, streams, index, from + 1);
    }
}

} // verus!
