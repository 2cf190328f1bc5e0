//! What reading packets promises, on clean files and on damaged ones.

use vstd::prelude::*;

use crate::bytes::joined;
use crate::error::DemuxError;
use crate::packet::unit_at;
use crate::packet::SYNC_BYTE;
use crate::sync::chain_at;
use crate::sync::law_next_chain_is_first;
use crate::sync::next_chain;
use crate::sync::next_packet_at;
use crate::sync::packets_from;
use crate::sync::packets_of;
use crate::sync::probe_of;
use crate::sync::sync_run;

verus! {

/// Units of `size` bytes, each ending in a packet of 188 bytes.
pub open spec fn are_frames(frames: Seq<Seq<u8>>, size: int) -> bool {
    forall|i: int|
        0 <= i < frames.len() ==> (#[trigger] frames[i]).len() == size && frames[i][size - 188]
            == SYNC_BYTE
}

/// The packets in a list of units.
pub open spec fn inner(frames: Seq<Seq<u8>>, size: int) -> Seq<Seq<u8>> {
    frames.map_values(|f: Seq<u8>| f.skip(size - 188))
}

/// Units of one size take up their number times the size.
proof fn lemma_frames_len(frames: Seq<Seq<u8>>, size: int)
    requires
        are_frames(frames, size),
        size >= 188,
    ensures
        joined(frames).len() == frames.len() * size,
    decreases frames.len(),
{
    if frames.len() > 0 {
        let rest = frames.drop_first();
        assert forall|i: int| 0 <= i < rest.len() implies (#[trigger] rest[i]).len() == size
            && rest[i][size - 188] == SYNC_BYTE by {
            assert(rest[i] == frames[i + 1]);
        }
        lemma_frames_len(rest, size);
        assert(frames.len() * size == rest.len() * size + size) by (nonlinear_arith)
            requires
                frames.len() == rest.len() + 1,
        ;
    }
}

/// Packets are read one after the other, whatever precedes and follows them,
/// with or without a timestamp before each.
pub proof fn law_frames_are_read(
    before: Seq<u8>,
    frames: Seq<Seq<u8>>,
    after: Seq<u8>,
    size: int,
)
    requires
        size >= 188,
        are_frames(frames, size),
    ensures
        ({
            let data = before + joined(frames) + after;
            let end = before.len() + joined(frames).len();
            packets_from(data, before.len() as int, size, size - 188) == inner(frames, size)
                + packets_from(data, end as int, size, size - 188)
        }),
    decreases frames.len(),
{
    let data = before + joined(frames) + after;
    let pos = before.len() as int;
    if frames.len() == 0 {
        assert(inner(frames, size) =~= Seq::<Seq<u8>>::empty());
        assert(inner(frames, size) + packets_from(data, pos, size, size - 188) =~= packets_from(
            data,
            pos,
            size,
            size - 188,
        ));
    } else {
        let frame = frames[0];
        let rest = frames.drop_first();
        assert forall|i: int| 0 <= i < rest.len() implies (#[trigger] rest[i]).len() == size
            && rest[i][size - 188] == SYNC_BYTE by {
            assert(rest[i] == frames[i + 1]);
        }
        law_frames_are_read(before + frame, rest, after, size);
        assert(data =~= (before + frame) + joined(rest) + after);
        assert(data[pos + (size - 188)] == frame[size - 188]);
        assert(unit_at(data, pos, size) =~= frame.skip(size - 188));
        assert(inner(frames, size) =~= seq![frame.skip(size - 188)] + inner(rest, size));
        let end = pos + joined(frames).len();
        let tail = packets_from(data, end, size, size - 188);
        assert(packets_from(data, pos, size, size - 188) =~= seq![unit_at(data, pos, size)] + (inner(
            rest,
            size,
        ) + tail));
        assert(seq![unit_at(data, pos, size)] + (inner(rest, size) + tail) =~= inner(frames, size)
            + tail);
    }
}

/// Two packets in a row are a chain.
proof fn lemma_frames_chain(before: Seq<u8>, frames: Seq<Seq<u8>>, after: Seq<u8>, size: int)
    requires
        size >= 188,
        are_frames(frames, size),
    ensures
        ({
            let data = before + joined(frames) + after;
            let start = before.len() as int;
            &&& frames.len() >= 2 ==> chain_at(data, start, size, size - 188, 2)
            &&& frames.len() >= 3 ==> chain_at(data, start, size, size - 188, 3)
        }),
{
    reveal_with_fuel(sync_run, 4);
    reveal_with_fuel(joined, 4);
    let data = before + joined(frames) + after;
    let start = before.len() as int;
    let first = start + (size - 188);
    if frames.len() >= 2 {
        let a = frames[0];
        let b = frames[1];
        let rest = frames.drop_first();
        assert(rest[0] == b);
        assert(joined(frames) == a + joined(rest));
        assert(joined(rest) == b + joined(rest.drop_first()));
        assert(data[first] == a[size - 188]);
        assert(data[first + size] == b[size - 188]);
        if frames.len() >= 3 {
            let c = frames[2];
            let last = rest.drop_first();
            assert(last[0] == c);
            assert(joined(last) == c + joined(last.drop_first()));
            assert(data[first + size + size] == c[size - 188]);
        }
    }
}

/// Reading goes on behind damage: where bytes stand between packets and no
/// two packets seem to begin among them, the packets before and behind are all
/// read, and nothing else is.
pub proof fn law_reading_recovers(
    before: Seq<u8>,
    first: Seq<Seq<u8>>,
    junk: Seq<u8>,
    second: Seq<Seq<u8>>,
    size: int,
)
    requires
        size >= 188,
        are_frames(first, size),
        are_frames(second, size),
        second.len() >= 2,
        ({
            let data = before + joined(first) + junk + joined(second);
            let damage = before.len() + joined(first).len();
            &&& data[damage + (size - 188)] != SYNC_BYTE
            &&& forall|p: int|
                damage < p < damage + junk.len() ==> !#[trigger] chain_at(
                    data,
                    p,
                    size,
                    size - 188,
                    2,
                )
        }),
    ensures
        packets_from(
            before + joined(first) + junk + joined(second),
            before.len() as int,
            size,
            size - 188,
        ) == inner(first, size) + inner(second, size),
{
    let data = before + joined(first) + junk + joined(second);
    let damage = (before.len() + joined(first).len()) as int;
    let resume = damage + junk.len();
    let none = Seq::<u8>::empty();
    law_frames_are_read(before, first, junk + joined(second), size);
    assert(data =~= before + joined(first) + (junk + joined(second)));
    law_frames_are_read(before + joined(first) + junk, second, none, size);
    assert(data =~= before + joined(first) + junk + joined(second) + none);
    lemma_frames_chain(before + joined(first) + junk, second, none, size);
    lemma_frames_len(second, size);
    assert(joined(second).len() >= 2 * size) by (nonlinear_arith)
        requires
            joined(second).len() == second.len() * size,
            second.len() >= 2,
            size >= 188,
    ;
    assert(chain_at(data, resume as int, size, size - 188, 2));
    if junk.len() == 0 {
        reveal_with_fuel(sync_run, 2);
        assert(false);
    }
    law_next_chain_is_first(data, damage + 1, size, size - 188, 2);
    let found = next_chain(data, damage + 1, size, size - 188, 2);
    assert(found is Some);
    assert(found.unwrap() == resume) by {
        let at = found.unwrap();
        if at < resume {
            assert(!chain_at(data, at, size, size - 188, 2));
        }
        if at > resume {
            assert(!chain_at(data, resume as int, size, size - 188, 2));
        }
    }
    assert(packets_from(data, data.len() as int, size, size - 188) =~= Seq::<Seq<u8>>::empty());
    assert(packets_from(data, resume as int, size, size - 188) =~= inner(second, size));
}

/// A file of clean 188-byte packets, three or more, is read as those packets.
pub proof fn law_plain_file_is_read(frames: Seq<Seq<u8>>)
    requires
        frames.len() >= 3,
        are_frames(frames, 188),
    ensures
        packets_of(joined(frames)) == Ok::<Seq<Seq<u8>>, DemuxError>(frames),
{
    let data = joined(frames);
    let none = Seq::<u8>::empty();
    lemma_frames_len(frames, 188);
    lemma_frames_chain(none, frames, none, 188);
    assert(none + data + none =~= data);
    reveal_with_fuel(sync_run, 4);
    assert(chain_at(probe_of(data), 0, 188, 0, 3)) by {
        let probe = probe_of(data);
        assert(probe[0] == data[0]);
        assert(probe[188] == data[188]);
        assert(probe[376] == data[376]);
    }
    law_frames_are_read(none, frames, none, 188);
    assert(packets_from(data, data.len() as int, 188, 0) =~= Seq::<Seq<u8>>::empty());
    assert(inner(frames, 188) =~= frames) by {
        assert forall|i: int| 0 <= i < frames.len() implies inner(frames, 188)[i] == frames[i] by {
            assert(frames[i].skip(0) =~= frames[i]);
        }
    }
    assert(inner(frames, 188) + Seq::<Seq<u8>>::empty() =~= frames);
}

/// A file of clean 192-byte units, three or more, is read as the packets in
/// them, unless three 188-byte packets seem to begin somewhere in its head.
pub proof fn law_timestamped_file_is_read(frames: Seq<Seq<u8>>)
    requires
        frames.len() >= 3,
        are_frames(frames, 192),
        next_chain(probe_of(joined(frames)), 0, 188, 0, 3) is None,
    ensures
        packets_of(joined(frames)) == Ok::<Seq<Seq<u8>>, DemuxError>(inner(frames, 192)),
{
    let data = joined(frames);
    let none = Seq::<u8>::empty();
    lemma_frames_len(frames, 192);
    lemma_frames_chain(none, frames, none, 192);
    assert(none + data + none =~= data);
    reveal_with_fuel(sync_run, 4);
    assert(chain_at(probe_of(data), 0, 192, 4, 3)) by {
        let probe = probe_of(data);
        assert(probe[4] == data[4]);
        assert(probe[196] == data[196]);
        assert(probe[388] == data[388]);
    }
    law_frames_are_read(none, frames, none, 192);
    assert(packets_from(data, data.len() as int, 192, 4) =~= Seq::<Seq<u8>>::empty());
    assert(inner(frames, 192) + Seq::<Seq<u8>>::empty() =~= inner(frames, 192));
}

/// Packets seem to begin at a place if and only if a sync byte stands where each
/// of them would have it.
pub proof fn law_chain_is_a_row_of_sync_bytes(
    data: Seq<u8>,
    start: int,
    size: int,
    offset: int,
    count: nat,
)
    ensures
        chain_at(data, start, size, offset, count) <==> forall|i: int|
            0 <= i < count ==> 0 <= #[trigger] (start + offset + i * size) < data.len() && data[start
                + offset + i * size] == 0x47,
{
    lemma_sync_run(data, start + offset, size, count);
}

/// Sync bytes in a row, place by place.
proof fn lemma_sync_run(data: Seq<u8>, pos: int, size: int, count: nat)
    ensures
        sync_run(data, pos, size, count) <==> forall|i: int|
            0 <= i < count ==> 0 <= #[trigger] (pos + i * size) < data.len() && data[pos + i * size]
                == 0x47,
    decreases count,
{
    if count > 0 {
        lemma_sync_run(data, pos + size, size, (count - 1) as nat);
        if sync_run(data, pos, size, count) {
            assert forall|i: int| 0 <= i < count implies 0 <= #[trigger] (pos + i * size)
                < data.len() && data[pos + i * size] == 0x47 by {
                if i == 0 {
                    assert(i * size == 0) by (nonlinear_arith)
                        requires
                            i == 0,
                    ;
                } else {
                    assert(pos + i * size == pos + size + (i - 1) * size) by (nonlinear_arith);
                }
            }
        }
        if forall|i: int|
            0 <= i < count ==> 0 <= #[trigger] (pos + i * size) < data.len() && data[pos + i * size]
                == 0x47 {
            assert(pos + 0 * size == pos) by (nonlinear_arith);
            assert(0 <= pos + 0 * size < data.len());
            assert forall|i: int| 0 <= i < count - 1 implies 0 <= #[trigger] (pos + size + i * size)
                < data.len() && data[pos + size + i * size] == 0x47 by {
                assert(pos + size + i * size == pos + (i + 1) * size) by (nonlinear_arith);
                assert(0 <= pos + (i + 1) * size < data.len());
            }
        }
    }
}

/// The first mebibyte of a file, or all of it where it is shorter.
pub open spec fn first_mebibyte(data: Seq<u8>) -> Seq<u8> {
    if data.len() > 1048576 {
        data.take(1048576)
    } else {
        data
    }
}

/// Bytes before the first packet, and a piece of a packet at the end, do not
/// matter: a file is read as the packets in it, three or more, where they begin
/// within its first mebibyte and no three packets seem to begin before them.
pub proof fn law_lead_and_tail_do_not_matter(
    before: Seq<u8>,
    frames: Seq<Seq<u8>>,
    after: Seq<u8>,
    size: int,
)
    requires
        size == 188 || size == 192,
        frames.len() >= 3,
        are_frames(frames, size),
        after.len() < size,
        before.len() + 3 * size <= 1048576,
        ({
            let data = before + joined(frames) + after;
            let probe = first_mebibyte(data);
            &&& forall|p: int|
                0 <= p < before.len() ==> !#[trigger] chain_at(probe, p, size, size - 188, 3)
            &&& size == 192 ==> forall|p: int|
                0 <= p < probe.len() ==> !#[trigger] chain_at(probe, p, 188, 0, 3)
        }),
    ensures
        packets_of(before + joined(frames) + after) == Ok::<Seq<Seq<u8>>, DemuxError>(
            inner(frames, size),
        ),
{
    let data = before + joined(frames) + after;
    let start = before.len() as int;
    let probe = first_mebibyte(data);
    assert(probe =~= probe_of(data));
    lemma_frames_len(frames, size);
    assert(joined(frames).len() >= 3 * size) by (nonlinear_arith)
        requires
            joined(frames).len() == frames.len() * size,
            frames.len() >= 3,
            size >= 188,
    ;
    lemma_frames_chain(before, frames, after, size);
    reveal_with_fuel(sync_run, 4);
    let first = start + (size - 188);
    assert(chain_at(probe, start, size, size - 188, 3)) by {
        assert(probe[first] == data[first]);
        assert(probe[first + size] == data[first + size]);
        assert(probe[first + size + size] == data[first + size + size]);
    }
    law_next_chain_is_first(probe, 0, size, size - 188, 3);
    let found = next_chain(probe, 0, size, size - 188, 3);
    assert(found == Some(start)) by {
        assert(found is Some);
        let at = found.unwrap();
        if at < start {
            assert(!chain_at(probe, at, size, size - 188, 3));
        }
    }
    if size == 192 {
        law_next_chain_is_first(probe, 0, 188, 0, 3);
        if let Some(at) = next_chain(probe, 0, 188, 0, 3) {
            assert(!chain_at(probe, at, 188, 0, 3));
        }
    }
    law_frames_are_read(before, frames, after, size);
    let end = start + joined(frames).len();
    assert(packets_from(data, end, size, size - 188) =~= Seq::<Seq<u8>>::empty());
    assert(inner(frames, size) + Seq::<Seq<u8>>::empty() =~= inner(frames, size));
}

/// A file is no transport stream where three packets seem to begin nowhere in
/// its first mebibyte, neither with nor without timestamps.
pub proof fn law_other_files_are_refused(data: Seq<u8>)
    requires
        ({
            let probe = first_mebibyte(data);
            forall|p: int|
                0 <= p < probe.len() ==> !#[trigger] chain_at(probe, p, 188, 0, 3) && !chain_at(
                    probe,
                    p,
                    192,
                    4,
                    3,
                )
        }),
    ensures
        packets_of(data) == Err::<Seq<Seq<u8>>, DemuxError>(
            if data.len() == 0 {
                DemuxError::EmptyInput
            } else {
                DemuxError::UnrecognizedLayout
            },
        ),
{
    let probe = first_mebibyte(data);
    assert(probe =~= probe_of(data));
    law_next_chain_is_first(probe, 0, 188, 0, 3);
    law_next_chain_is_first(probe, 0, 192, 4, 3);
    if let Some(at) = next_chain(probe, 0, 188, 0, 3) {
        assert(!chain_at(probe, at, 188, 0, 3));
    }
    if let Some(at) = next_chain(probe, 0, 192, 4, 3) {
        assert(!chain_at(probe, at, 188, 0, 3));
    }
}

/// Reading ends at damage behind which no two packets seem to begin, with all
/// packets before it.
pub proof fn law_reading_ends_at_damage(
    before: Seq<u8>,
    frames: Seq<Seq<u8>>,
    junk: Seq<u8>,
    size: int,
)
    requires
        size >= 188,
        are_frames(frames, size),
        ({
            let data = before + joined(frames) + junk;
            let damage = before.len() + joined(frames).len();
            junk.len() < size || (junk[size - 188] != 0x47 && forall|p: int|
                damage < p < data.len() ==> !#[trigger] chain_at(data, p, size, size - 188, 2))
        }),
    ensures
        packets_from(before + joined(frames) + junk, before.len() as int, size, size - 188) == inner(
            frames,
            size,
        ),
{
    let data = before + joined(frames) + junk;
    let damage = (before.len() + joined(frames).len()) as int;
    law_frames_are_read(before, frames, junk, size);
    if junk.len() >= size {
        assert(data[damage + (size - 188)] == junk[size - 188]);
        law_next_chain_is_first(data, damage + 1, size, size - 188, 2);
        if let Some(at) = next_chain(data, damage + 1, size, size - 188, 2) {
            assert(!chain_at(data, at, size, size - 188, 2));
        }
    }
    assert(packets_from(data, damage, size, size - 188) =~= Seq::<Seq<u8>>::empty());
    assert(inner(frames, size) + Seq::<Seq<u8>>::empty() =~= inner(frames, size));
}

/// The next packet is where reading stands, if its sync byte is there; else at
/// the next place where two packets seem to begin. Where there is no room for a
/// packet, or no such place, reading stays.
pub proof fn law_next_packet_is_the_nearest(data: Seq<u8>, pos: int, size: int)
    requires
        size >= 188,
        0 <= pos <= data.len(),
    ensures
        ({
            let at = next_packet_at(data, pos, size, size - 188);
            let room = pos + size <= data.len();
            &&& !room ==> at == pos
            &&& room && data[pos + size - 188] == 0x47 ==> at == pos
            &&& room && data[pos + size - 188] != 0x47 ==> match next_chain(
                data,
                pos + 1,
                size,
                size - 188,
                2,
            ) {
                Some(found) => at == next_packet_at(data, found, size, size - 188),
                None => at == pos,
            }
        }),
{
    law_next_chain_is_first(data, pos + 1, size, size - 188, 2);
}

} // verus!
