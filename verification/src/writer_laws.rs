//! What writing a packed file promises, packet by packet.

use vstd::prelude::*;

use crate::bytes::joined;
use crate::bytes::pieces;
use crate::custom_ts::container_parts;
use crate::custom_ts::header_bytes;
use crate::custom_ts::packed;
use crate::custom_ts::part_payloads;
use crate::custom_ts::trailer_bytes;
use crate::packet::counter_of;
use crate::packet::has_transport_error;
use crate::packet::payload_of;
use crate::packet::pid_of;
use crate::packet::starts_unit;
use crate::stream_laws::fixed_head;
use crate::ts_writer::data_fill;
use crate::ts_writer::data_packet;
use crate::ts_writer::data_packets;
use crate::ts_writer::pat_bytes;
use crate::ts_writer::pmt_bytes;
use crate::ts_writer::section_packet;

verus! {

/// Bytes that are all stuffing.
pub open spec fn is_stuffing(bytes: Seq<u8>) -> bool {
    forall|i: int| 0 <= i < bytes.len() ==> #[trigger] bytes[i] == 0xFF
}

/// A section packet carries its section: behind a pointer field of zero, with
/// nothing but stuffing after it, under its identifier.
pub proof fn law_section_packet_carries_section(pid: u16, starts: bool, section: Seq<u8>)
    requires
        pid < 8192,
        section.len() <= 183,
    ensures
        ({
            let packet = section_packet(pid, starts, section);
            &&& packet.len() == 188
            &&& packet[0] == 0x47
            &&& pid_of(packet) == pid
            &&& starts_unit(packet) == starts
            &&& !has_transport_error(packet)
            &&& counter_of(packet) == 0
            &&& payload_of(packet) matches Some(payload) && payload[0] == 0 && payload.subrange(
                1,
                1 + section.len() as int,
            ) == section && is_stuffing(payload.skip(1 + section.len() as int))
        }),
{
    let packet = section_packet(pid, starts, section);
    let n = section.len() as int;
    assert(packet.len() == 188);
    let payload = packet.skip(4);
    assert(payload.subrange(1, 1 + n) =~= section);
    assert(is_stuffing(payload.skip(1 + n)));
}

/// A data packet holds its payload at its end. What is left between that and the
/// header is an adaptation field: its length, no flags, and stuffing.
pub proof fn law_data_packet_is_filled_up(counter: u8, payload: Seq<u8>)
    requires
        counter < 16,
        1 <= payload.len() <= 184,
    ensures
        ({
            let packet = data_packet(counter, payload);
            let n = payload.len() as int;
            &&& packet.len() == 188
            &&& packet[0] == 0x47 && packet[1] == 0x01 && packet[2] == 0x00
            &&& !starts_unit(packet) && !has_transport_error(packet)
            &&& counter_of(packet) == counter
            &&& packet.skip(188 - n) == payload
            &&& n < 184 ==> packet[4] == 183 - n
            &&& n < 183 ==> packet[5] == 0
            &&& n < 182 ==> is_stuffing(packet.subrange(6, 188 - n))
        }),
{
    let packet = data_packet(counter, payload);
    let n = payload.len() as int;
    assert(data_fill(n).len() == 184 - n);
    assert(packet.skip(188 - n) =~= payload);
    if n < 184 {
        assert(packet[4] == data_fill(n)[0]);
    }
    if n < 183 {
        assert(packet[5] == data_fill(n)[1]);
    }
    if n < 182 {
        assert forall|i: int| 0 <= i < packet.subrange(6, 188 - n).len() implies
            #[trigger] packet.subrange(6, 188 - n)[i] == 0xFF by {
            assert(packet[6 + i] == data_fill(n)[2 + i]);
        }
    }
}

/// Data packets stand one after the other, and their counter runs from 15 to 0.
pub proof fn law_data_packets_run_on(counter: u8, payload: Seq<u8>, more: Seq<Seq<u8>>)
    requires
        counter < 16,
    ensures
        data_packets(counter, Seq::empty()) == Seq::<u8>::empty(),
        data_packets(counter, seq![payload] + more) == data_packet(counter, payload) + data_packets(
            if counter == 15 {
                0
            } else {
                (counter + 1) as u8
            },
            more,
        ),
{
    assert((seq![payload] + more).drop_first() =~= more);
}

/// Bytes are cut into full pieces, and a last one that may be shorter.
pub proof fn law_pieces_are_full(data: Seq<u8>, size: nat)
    requires
        size > 0,
    ensures
        joined(pieces(data, size)) == data,
        forall|i: int|
            0 <= i < pieces(data, size).len() - 1 ==> (#[trigger] pieces(data, size)[i]).len()
                == size,
        data.len() > 0 ==> 1 <= pieces(data, size).last().len() <= size,
        data.len() == 0 ==> pieces(data, size).len() == 0,
    decreases data.len(),
{
    let list = pieces(data, size);
    if data.len() == 0 {
    } else if data.len() <= size {
        reveal_with_fuel(joined, 2);
        assert(joined(list) =~= data);
    } else {
        let rest = data.skip(size as int);
        let others = pieces(rest, size);
        law_pieces_are_full(rest, size);
        assert(list.drop_first() =~= others);
        assert(joined(list) =~= data);
        assert(list.last() == others.last());
        assert forall|i: int| 0 <= i < list.len() - 1 implies (#[trigger] list[i]).len() == size by {
            if i > 0 {
                assert(list[i] == others[i - 1]);
            }
        }
    }
}

/// A packed file is the two tables, each in a packet, and the data packets. Its
/// parts are the header, the content in runs of a mebibyte, and the trailer;
/// each part begins a packet of its own and fills its packets but for the last.
pub proof fn law_packed_file_is_laid_out(
    name: Seq<u8>,
    size: u64,
    content: Seq<u8>,
    digest: Seq<u8>,
)
    requires
        name.len() <= 65535,
    ensures
        packed(name, size, content, digest) == section_packet(0, true, pat_bytes())
            + section_packet(0x1000, true, pmt_bytes()) + data_packets(
            0,
            part_payloads(container_parts(name, size, content, digest)),
        ),
        container_parts(name, size, content, digest) == seq![
            fixed_head(1, name.len() as u16, size) + name,
        ] + pieces(content, 1048576) + seq![
            seq![0x54u8, 0x53u8, 0x42u8, 0x4Fu8, 0x58u8, 0x45u8, 0x4Eu8, 0x44u8] + digest,
        ],
{
    assert(header_bytes(name, size) =~= fixed_head(1, name.len() as u16, size) + name);
    assert(trailer_bytes(digest) =~= seq![
        0x54u8,
        0x53u8,
        0x42u8,
        0x4Fu8,
        0x58u8,
        0x45u8,
        0x4Eu8,
        0x44u8,
    ] + digest);
}

/// The payloads of parts are those of each part by itself: its bytes in pieces
/// of 184.
pub proof fn law_parts_are_cut_apart(part: Seq<u8>, parts: Seq<Seq<u8>>)
    ensures
        part_payloads(Seq::empty()) == Seq::<Seq<u8>>::empty(),
        part_payloads(seq![part] + parts) == pieces(part, 184) + part_payloads(parts),
{
    assert((seq![part] + parts).drop_first() =~= parts);
}

} // verus!
