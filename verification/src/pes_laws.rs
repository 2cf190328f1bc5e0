//! What putting the PES packets of a stream together promises.

use vstd::prelude::*;

use crate::bytes::joined;
use crate::bytes::lemma_joined_concat;
use crate::demux_laws::lemma_prefix_is_taken;
use crate::error::DemuxError;
use crate::packet::counter_of;
use crate::packet::has_transport_error;
use crate::packet::payload_of;
use crate::packet::starts_unit;
use crate::pes::begun;
use crate::pes::continued;
use crate::pes::fed;
use crate::pes::fresh_stream;
use crate::pes::header_len;
use crate::pes::law_pes_cuts_do_not_matter;
use crate::pes::noted;
use crate::pes::owed;
use crate::pes::pes_len;
use crate::pes::received;
use crate::pes::written;
use crate::pes::PesState;

verus! {

/// What a stream has given so far is never taken back: whatever arrives, the
/// output before is the first part of the output after.
pub proof fn law_output_only_grows(state: PesState, payload: Seq<u8>, packet: Seq<u8>)
    ensures
        state.output.is_prefix_of(begun(state, payload).0.output),
        state.output.is_prefix_of(continued(state, payload).0.output),
        state.output.is_prefix_of(received(state, packet).0.output),
{
    lemma_output_grows(state, payload);
    if let Some(own) = payload_of(packet) {
        lemma_output_grows(noted(state, packet), own);
    }
}

/// What is written goes behind what is there.
proof fn lemma_written_grows(state: PesState, payload: Seq<u8>)
    ensures
        state.output.is_prefix_of(written(state, payload).output),
{
    let count = owed(state.remaining, payload.len());
    assert((state.output + payload.take(count)).take(state.output.len() as int) =~= state.output);
}

/// What is fed to a header leaves the output, or goes behind it.
proof fn lemma_fed_grows(state: PesState, payload: Seq<u8>)
    ensures
        state.output.is_prefix_of(fed(state, payload).0.output),
{
    let header = state.header + payload;
    let after = fed(state, payload).0;
    if after.output != state.output {
        let open = PesState {
            header: Seq::empty(),
            awaiting: false,
            started: true,
            remaining: if pes_len(header) > 0 {
                Some((pes_len(header) - (header_len(header) - 6)) as usize)
            } else {
                state.remaining
            },
            ..state
        };
        lemma_written_grows(open, header.skip(header_len(header)));
    }
}

/// A payload leaves the output, or goes behind it.
proof fn lemma_output_grows(state: PesState, payload: Seq<u8>)
    ensures
        state.output.is_prefix_of(begun(state, payload).0.output),
        state.output.is_prefix_of(continued(state, payload).0.output),
{
    lemma_fed_grows(
        PesState { header: Seq::empty(), awaiting: true, remaining: None, ..state },
        payload,
    );
    lemma_fed_grows(state, payload);
    lemma_written_grows(state, payload);
}

/// The length that a PES packet declares for what follows its sixth byte.
pub open spec fn declared_by(pes: Seq<u8>) -> int {
    pes[4] * 256 + pes[5]
}

/// A whole PES packet: start code, fixed header, the header bytes that it
/// announces, and as many bytes as it declares, if it declares a length.
pub open spec fn is_whole_pes(pes: Seq<u8>) -> bool {
    &&& pes.len() >= 9
    &&& pes[0] == 0 && pes[1] == 0 && pes[2] == 1
    &&& pes.len() >= 9 + pes[8]
    &&& declared_by(pes) == 0 || 9 + pes[8] <= 6 + declared_by(pes) <= pes.len()
}

/// The elementary bytes of a PES packet: those behind its header, up to the
/// declared length where there is one.
pub open spec fn elementary_bytes(pes: Seq<u8>) -> Seq<u8> {
    if declared_by(pes) == 0 {
        pes.skip(9 + pes[8])
    } else {
        pes.subrange(9 + pes[8], 6 + declared_by(pes))
    }
}

/// A stream stands between two PES packets: no header is open and no bytes are
/// owed.
pub open spec fn between_packets(state: PesState) -> bool {
    !state.awaiting && (state.remaining matches Some(left) ==> left == 0)
}

/// A whole PES packet adds its elementary bytes to the output, behind all that
/// is there, and leaves the stream ready for the next.
pub proof fn law_whole_pes_is_written(state: PesState, pes: Seq<u8>)
    requires
        between_packets(state),
        is_whole_pes(pes),
    ensures
        begun(state, pes).1 is Ok,
        begun(state, pes).0.output == state.output + elementary_bytes(pes),
        between_packets(begun(state, pes).0),
        begun(state, pes).0.started,
        begun(state, pes).0.last_counter == state.last_counter,
{
    assert(Seq::<u8>::empty() + pes =~= pes);
    let after = begun(state, pes).0;
    let rest = pes.skip(9 + pes[8]);
    if declared_by(pes) == 0 {
        assert(rest.take(rest.len() as int) =~= rest);
    } else {
        let owed = declared_by(pes) - (3 + pes[8]);
        assert(rest.take(owed) =~= elementary_bytes(pes));
    }
    assert(after.output =~= state.output + elementary_bytes(pes));
}

/// A PES packet that declares more bytes than have arrived when the next one
/// begins is refused.
pub proof fn law_short_pes_is_refused(state: PesState, pes: Seq<u8>, next: Seq<u8>)
    requires
        between_packets(state),
        pes.len() >= 9,
        pes[0] == 0 && pes[1] == 0 && pes[2] == 1,
        9 + pes[8] <= pes.len() < 6 + declared_by(pes),
    ensures
        begun(state, pes).1 is Ok,
        begun(begun(state, pes).0, next) == (
            begun(state, pes).0,
            Err::<(), DemuxError>(DemuxError::UnfinishedPes),
        ),
{
    assert(Seq::<u8>::empty() + pes =~= pes);
}

/// A PES packet without its start code is refused, and so is one that declares
/// less than its own header.
pub proof fn law_bad_pes_header_is_refused(state: PesState, pes: Seq<u8>)
    requires
        between_packets(state),
        pes.len() >= 9,
    ensures
        !(pes[0] == 0 && pes[1] == 0 && pes[2] == 1) ==> begun(state, pes).1 == Err::<
            (),
            DemuxError,
        >(DemuxError::PesStartCode),
        pes[0] == 0 && pes[1] == 0 && pes[2] == 1 && pes.len() >= 9 + pes[8] && 0 < declared_by(pes)
            < 3 + pes[8] ==> begun(state, pes).1 == Err::<(), DemuxError>(DemuxError::PesLength),
{
    assert(Seq::<u8>::empty() + pes =~= pes);
}

/// What arrives before the first PES packet begins is dropped.
pub proof fn law_nothing_before_the_first_pes(payload: Seq<u8>)
    ensures
        continued(fresh_stream(), payload) == (fresh_stream(), Ok::<(), DemuxError>(())),
{
}

/// A packet that comes twice counts once, and a packet without a payload does
/// not count.
pub proof fn law_duplicates_do_not_matter(state: PesState, packet: Seq<u8>)
    requires
        received(state, packet).1 is Ok,
    ensures
        received(received(state, packet).0, packet) == (
            received(state, packet).0,
            Ok::<(), DemuxError>(()),
        ),
        payload_of(packet) is None ==> received(state, packet).0 == state,
{
}

/// Packets that follow each other without damage or loss: none is marked as
/// damaged, all carry a payload, and the counters go up by one, from 15 to 0.
pub open spec fn run_on(packets: Seq<Seq<u8>>) -> bool {
    &&& forall|i: int|
        0 <= i < packets.len() ==> payload_of(#[trigger] packets[i]) is Some
            && !has_transport_error(packets[i]) && counter_of(packets[i]) == (counter_of(packets[0])
            + i) % 16
}

/// The PES packets that a run of packets carries: each begins with a packet
/// that says so and goes on to the next that does.
pub open spec fn pes_packets(packets: Seq<Seq<u8>>) -> Seq<Seq<u8>>
    decreases packets.len(),
{
    if packets.len() == 0 {
        Seq::empty()
    } else {
        let before = pes_packets(packets.drop_last());
        let payload = payload_of(packets.last()).unwrap();
        if starts_unit(packets.last()) {
            before.push(payload)
        } else if before.len() == 0 {
            before
        } else {
            before.drop_last().push(before.last() + payload)
        }
    }
}

/// The elementary bytes of some PES packets, one after the other.
pub open spec fn all_elementary(pes: Seq<Seq<u8>>) -> Seq<u8> {
    joined(pes.map_values(|p: Seq<u8>| elementary_bytes(p)))
}

/// All these PES packets are whole.
pub open spec fn all_whole(pes: Seq<Seq<u8>>) -> bool {
    forall|i: int| 0 <= i < pes.len() ==> is_whole_pes(#[trigger] pes[i])
}

/// What a run of packets makes of a stream.
pub open spec fn run_of(state: PesState, packets: Seq<Seq<u8>>) -> Result<PesState, DemuxError>
    decreases packets.len(),
{
    if packets.len() == 0 {
        Ok(state)
    } else {
        match run_of(state, packets.drop_last()) {
            Err(e) => Err(e),
            Ok(before) => match received(before, packets.last()) {
                (after, Ok(())) => Ok(after),
                (_, Err(e)) => Err(e),
            },
        }
    }
}

/// The state after some whole PES packets, without regard to counters.
spec fn begun_all(pes: Seq<Seq<u8>>) -> PesState
    decreases pes.len(),
{
    if pes.len() == 0 {
        fresh_stream()
    } else {
        begun(begun_all(pes.drop_last()), pes.last()).0
    }
}

/// Whole PES packets add their bytes, one after the other.
proof fn lemma_begun_all(pes: Seq<Seq<u8>>)
    requires
        all_whole(pes),
    ensures
        between_packets(begun_all(pes)),
        begun_all(pes).output == all_elementary(pes),
    decreases pes.len(),
{
    let each = |p: Seq<u8>| elementary_bytes(p);
    if pes.len() == 0 {
        assert(pes.map_values(each) =~= Seq::<Seq<u8>>::empty());
    } else {
        let head = pes.drop_last();
        let last = pes.last();
        assert(all_whole(head)) by {
            assert forall|i: int| 0 <= i < head.len() implies is_whole_pes(#[trigger] head[i]) by {
                assert(head[i] == pes[i]);
            }
        }
        lemma_begun_all(head);
        assert(last == pes[pes.len() - 1]);
        law_whole_pes_is_written(begun_all(head), last);
        let tail = seq![elementary_bytes(last)];
        assert(pes.map_values(each) =~= head.map_values(each) + tail);
        lemma_joined_concat(head.map_values(each), tail);
        reveal_with_fuel(joined, 2);
        assert(joined(tail) =~= elementary_bytes(last));
    }
}

/// The PES packets before the last are whole, and so much of the last as has
/// arrived can be taken.
spec fn takable(pes: Seq<Seq<u8>>) -> bool {
    pes.len() > 0 ==> all_whole(pes.drop_last()) && begun(
        begun_all(pes.drop_last()),
        pes.last(),
    ).1 is Ok
}

/// What can be taken could be taken before the last packet.
proof fn lemma_takable_before(packets: Seq<Seq<u8>>)
    requires
        packets.len() > 0,
        takable(pes_packets(packets)),
    ensures
        takable(pes_packets(packets.drop_last())),
{
    let pes = pes_packets(packets);
    let before = pes_packets(packets.drop_last());
    let payload = payload_of(packets.last()).unwrap();
    if before.len() > 0 {
        let inner = before.drop_last();
        if starts_unit(packets.last()) {
            assert(pes.drop_last() =~= before);
            assert(all_whole(inner)) by {
                assert forall|i: int| 0 <= i < inner.len() implies is_whole_pes(
                    #[trigger] inner[i],
                ) by {
                    assert(inner[i] == before[i]);
                }
            }
            lemma_begun_all(inner);
            assert(before.last() == before[before.len() - 1]);
            law_whole_pes_is_written(begun_all(inner), before.last());
        } else {
            assert(pes.drop_last() =~= inner);
            lemma_prefix_is_taken(begun_all(inner), before.last(), payload);
        }
    }
}

/// What one packet makes of a stream, where it follows the packet before it.
proof fn lemma_next_packet(state: PesState, last: Option<u8>, packet: Seq<u8>)
    requires
        payload_of(packet) is Some,
        !has_transport_error(packet),
        last matches Some(counter) ==> counter_of(packet) == (counter + 1) % 16,
    ensures
        ({
            let payload = payload_of(packet).unwrap();
            let (after, result) = if starts_unit(packet) {
                begun(state, payload)
            } else {
                continued(state, payload)
            };
            received(PesState { last_counter: last, ..state }, packet) == (
                PesState { last_counter: Some(counter_of(packet)), ..after },
                result,
            )
        }),
{
    let counter = Some(counter_of(packet));
    let payload = payload_of(packet).unwrap();
    lemma_counter_is_apart(state, counter, payload);
    assert(PesState { last_counter: counter, ..(PesState { last_counter: last, ..state }) }
        == PesState { last_counter: counter, ..state });
}

/// The counter of the last packet, if there is one.
spec fn last_of(packets: Seq<Seq<u8>>) -> Option<u8> {
    if packets.len() == 0 {
        None
    } else {
        Some(counter_of(packets.last()))
    }
}

/// Packets that run on did so before the last, which follows them.
proof fn lemma_run_on_before(packets: Seq<Seq<u8>>)
    requires
        packets.len() > 0,
        run_on(packets),
    ensures
        run_on(packets.drop_last()),
        payload_of(packets.last()) is Some,
        !has_transport_error(packets.last()),
        last_of(packets.drop_last()) matches Some(counter) ==> counter_of(packets.last()) == (counter
            + 1) % 16,
{
    let head = packets.drop_last();
    let n = head.len() as int;
    assert(packets.last() == packets[n]);
    if n > 0 {
        assert(head[0] == packets[0]);
        assert(head.last() == packets[n - 1]);
        assert(counter_of(packets[n - 1]) == (counter_of(packets[0]) + (n - 1)) % 16);
        assert(counter_of(packets[n]) == (counter_of(packets[0]) + n) % 16);
    }
    assert forall|i: int| 0 <= i < head.len() implies payload_of(#[trigger] head[i]) is Some
        && !has_transport_error(head[i]) && counter_of(head[i]) == (counter_of(head[0]) + i) % 16 by {
        assert(head[i] == packets[i]);
    }
}

/// Where a run of packets leaves its stream: inside the last PES packet that
/// has begun.
proof fn lemma_run(packets: Seq<Seq<u8>>)
    requires
        run_on(packets),
        takable(pes_packets(packets)),
    ensures
        run_of(fresh_stream(), packets) == Ok::<PesState, DemuxError>(
            PesState { last_counter: last_of(packets), ..begun_all(pes_packets(packets)) },
        ),
    decreases packets.len(),
{
    let pes = pes_packets(packets);
    if packets.len() == 0 {
        assert(fresh_stream() =~= PesState { last_counter: None, ..begun_all(pes) });
    } else {
        let head = packets.drop_last();
        let packet = packets.last();
        let before = pes_packets(head);
        let payload = payload_of(packet).unwrap();
        lemma_run_on_before(packets);
        lemma_takable_before(packets);
        lemma_run(head);
        lemma_next_packet(begun_all(before), last_of(head), packet);
        if starts_unit(packet) {
            assert(pes.drop_last() =~= before);
            assert(begun(begun_all(before), payload) == (
                begun_all(pes),
                Ok::<(), DemuxError>(()),
            ));
        } else if before.len() == 0 {
            assert(begun_all(before) == fresh_stream());
            law_nothing_before_the_first_pes(payload);
        } else {
            let inner = before.drop_last();
            assert(pes.drop_last() =~= inner);
            law_pes_cuts_do_not_matter(begun_all(inner), before.last(), payload);
            assert(continued(begun_all(before), payload) == (
                begun_all(pes),
                Ok::<(), DemuxError>(()),
            ));
        }
    }
}

/// The counter of a stream has no part in what its payloads make of it.
proof fn lemma_counter_is_apart(state: PesState, counter: Option<u8>, payload: Seq<u8>)
    ensures
        begun(PesState { last_counter: counter, ..state }, payload) == (
            PesState { last_counter: counter, ..begun(state, payload).0 },
            begun(state, payload).1,
        ),
        continued(PesState { last_counter: counter, ..state }, payload) == (
            PesState { last_counter: counter, ..continued(state, payload).0 },
            continued(state, payload).1,
        ),
{
}

/// A stream is put together from all its PES packets: where packets follow each
/// other without damage or loss, and the PES packets in them are whole, all are
/// taken, and the output is the elementary bytes of every PES packet, one after
/// the other, however they were cut into packets.
pub proof fn law_stream_is_its_pes_packets(packets: Seq<Seq<u8>>)
    requires
        run_on(packets),
        all_whole(pes_packets(packets)),
    ensures
        run_of(fresh_stream(), packets) matches Ok(state) && between_packets(state) && state.output
            == all_elementary(pes_packets(packets)),
{
    let pes = pes_packets(packets);
    if pes.len() > 0 {
        let head = pes.drop_last();
        assert(all_whole(head)) by {
            assert forall|i: int| 0 <= i < head.len() implies is_whole_pes(#[trigger] head[i]) by {
                assert(head[i] == pes[i]);
            }
        }
        lemma_begun_all(head);
        assert(pes.last() == pes[pes.len() - 1]);
        law_whole_pes_is_written(begun_all(head), pes.last());
    }
    lemma_run(packets);
    lemma_begun_all(pes);
}

} // verus!
