//! What packing and unpacking promise together.

use vstd::prelude::*;
use vstd::utf8::encode_utf8;
use vstd::utf8::encode_utf8_decode_utf8;
use vstd::utf8::encode_utf8_valid_utf8;

use crate::bytes::be16_bytes;
use crate::bytes::be64_bytes;
use crate::bytes::joined;
use crate::bytes::lemma_be64_round_trip;
use crate::bytes::lemma_joined_concat;
use crate::bytes::lemma_pieces;
use crate::bytes::pieces;
use crate::custom_ts::container_of;
use crate::custom_ts::container_parts;
use crate::custom_ts::data_stream;
use crate::custom_ts::extracted;
use crate::custom_ts::header_bytes;
use crate::custom_ts::is_basename;
use crate::custom_ts::lemma_data_packets_concat;
use crate::custom_ts::magic;
use crate::custom_ts::name_len;
use crate::custom_ts::packed;
use crate::custom_ts::packet_size_of;
use crate::custom_ts::part_payloads;
use crate::custom_ts::probed;
use crate::custom_ts::trailer_bytes;
use crate::custom_ts::trailer_magic;
use crate::custom_ts::MetadataView;
use crate::custom_ts::TsboxError;
use crate::custom_ts::CHUNK;
use crate::custom_ts::MAX_NAME_LEN;
use crate::custom_ts::TRAILER_LEN;
use crate::custom_ts::VERSION;
use crate::digest::sha256;
use crate::packet::is_packet;
use crate::packet::counter_of;
use crate::packet::payload_of;
use crate::packet::payload_offset;
use crate::packet::pid_of;
use crate::packet::unit_at;
use crate::ts_reader::payload_stream;
use crate::ts_reader::PayloadStream;
use crate::ts_reader::StreamEnd;
use crate::ts_writer::data_fill;
use crate::ts_writer::data_packet;
use crate::ts_writer::data_packets;
use crate::ts_writer::pat_bytes;
use crate::ts_writer::pmt_bytes;
use crate::ts_writer::section_packet;
use crate::ts_writer::table_packets;
use crate::ts_writer::DATA_PID;
use crate::ts_writer::PMT_PID;

verus! {

/// Every payload fits into one packet and is not empty.
pub open spec fn fit_packets(payloads: Seq<Seq<u8>>) -> bool {
    forall|i: int| 0 <= i < payloads.len() ==> 1 <= (#[trigger] payloads[i]).len() <= 184
}

/// A data packet is a packet of the data stream, and its payload is what was
/// put in.
pub proof fn law_data_packet_carries_payload(counter: u8, payload: Seq<u8>)
    requires
        counter < 16,
        1 <= payload.len() <= 184,
    ensures
        is_packet(data_packet(counter, payload)),
        pid_of(data_packet(counter, payload)) == DATA_PID,
        counter_of(data_packet(counter, payload)) == counter,
        payload_offset(data_packet(counter, payload)) == Some(188 - payload.len()),
        payload_of(data_packet(counter, payload)) == Some(payload),
{
    let p = data_packet(counter, payload);
    let n = payload.len() as int;
    assert(data_fill(n).len() == 184 - n);
    assert(p.len() == 188);
    if n == 184 {
        assert(p[3] == 0x10 + counter);
    } else {
        assert(p[3] == 0x30 + counter);
        assert(p[4] == data_fill(n)[0]);
    }
    assert(p.skip(188 - n) =~= payload);
}

/// A section packet is a packet of its identifier.
pub proof fn law_section_packet_is_packet(pid: u16, starts: bool, section: Seq<u8>)
    requires
        pid < 8192,
        section.len() <= 183,
    ensures
        is_packet(section_packet(pid, starts, section)),
        pid_of(section_packet(pid, starts, section)) == pid,
{
    let p = section_packet(pid, starts, section);
    assert(p.len() == 188);
}

/// Reading a stream of data packets gives back the payloads, one after the
/// other, whatever precedes them, and whatever follows that is no whole packet.
pub proof fn law_stream_gives_back_payloads(
    before: Seq<u8>,
    counter: u8,
    payloads: Seq<Seq<u8>>,
    after: Seq<u8>,
)
    requires
        counter < 16,
        fit_packets(payloads),
        after.len() < 188,
    ensures
        payload_stream(
            before + data_packets(counter, payloads) + after,
            before.len() as int,
            188,
            DATA_PID,
        ) == (PayloadStream { bytes: joined(payloads), end: StreamEnd::Eof }),
    decreases payloads.len(),
{
    let data = before + data_packets(counter, payloads) + after;
    let pos = before.len() as int;
    if payloads.len() == 0 {
        assert(data =~= before + after);
    } else {
        let p = data_packet(counter, payloads[0]);
        let next = ((counter + 1) % 16) as u8;
        let rest = payloads.drop_first();
        law_data_packet_carries_payload(counter, payloads[0]);
        assert(data =~= (before + p) + data_packets(next, rest) + after);
        assert(fit_packets(rest));
        law_stream_gives_back_payloads(before + p, next, rest, after);
        assert(unit_at(data, pos, 188) =~= p);
    }
}

/// Payloads of parts hold the parts' bytes, and fit into packets.
pub proof fn lemma_part_payloads(parts: Seq<Seq<u8>>)
    ensures
        joined(part_payloads(parts)) == joined(parts),
        fit_packets(part_payloads(parts)),
    decreases parts.len(),
{
    if parts.len() > 0 {
        lemma_part_payloads(parts.drop_first());
        lemma_pieces(parts[0], 184);
        lemma_joined_concat(pieces(parts[0], 184), part_payloads(parts.drop_first()));
    }
}

/// Data packets are packets: their number is that of the payloads.
proof fn lemma_data_packets_len(counter: u8, payloads: Seq<Seq<u8>>)
    requires
        counter < 16,
        fit_packets(payloads),
    ensures
        data_packets(counter, payloads).len() == 188 * payloads.len(),
    decreases payloads.len(),
{
    if payloads.len() > 0 {
        law_data_packet_carries_payload(counter, payloads[0]);
        assert(fit_packets(payloads.drop_first()));
        lemma_data_packets_len(((counter + 1) % 16) as u8, payloads.drop_first());
    }
}

/// The bytes of the parts, in order.
proof fn lemma_joined_parts(name: Seq<u8>, size: u64, content: Seq<u8>, digest: Seq<u8>)
    ensures
        joined(container_parts(name, size, content, digest)) == header_bytes(name, size) + content
            + trailer_bytes(digest),
{
    let head = seq![header_bytes(name, size)];
    let mid = pieces(content, CHUNK as nat);
    let tail = seq![trailer_bytes(digest)];
    lemma_pieces(content, CHUNK as nat);
    lemma_joined_concat(head + mid, tail);
    lemma_joined_concat(head, mid);
    reveal_with_fuel(joined, 2);
    assert(joined(head) =~= header_bytes(name, size));
    assert(joined(tail) =~= trailer_bytes(digest));
}

/// What a packed file shows up to a point behind its first data packet: the
/// payloads of the packets that are still whole.
proof fn lemma_cut_stream(parts: Seq<Seq<u8>>, count: int, after: Seq<u8>)
    requires
        1 <= count <= part_payloads(parts).len(),
        after.len() < 188,
    ensures
        data_stream(
            table_packets() + data_packets(0, part_payloads(parts).take(count)) + after,
        ) == Ok::<PayloadStream, TsboxError>(
            PayloadStream {
                bytes: joined(part_payloads(parts).take(count)),
                end: StreamEnd::Eof,
            },
        ),
{
    let payloads = part_payloads(parts).take(count);
    let tables = table_packets();
    let data = tables + data_packets(0, payloads) + after;
    let pat = section_packet(0, true, pat_bytes());
    let pmt = section_packet(PMT_PID, true, pmt_bytes());
    lemma_part_payloads(parts);
    assert(fit_packets(payloads));
    law_section_packet_is_packet(0, true, pat_bytes());
    law_section_packet_is_packet(PMT_PID, true, pmt_bytes());
    law_stream_gives_back_payloads(tables, 0, payloads, after);
    lemma_data_packets_len(0, payloads);
    law_data_packet_carries_payload(0, payloads[0]);
    assert(data[0] == pat[0]);
    assert(data[188] == pmt[0]);
    assert(data[376] == data_packet(0, payloads[0])[0]);
    assert(packet_size_of(data) == Some(188int));
    assert(unit_at(data, 0, 188) =~= pat);
    assert(unit_at(data, 188, 188) =~= pmt);
    reveal_with_fuel(payload_stream, 3);
}

/// The data stream of a packed file is the header, the content and the trailer.
pub proof fn law_packed_stream(name: Seq<u8>, size: u64, content: Seq<u8>, digest: Seq<u8>)
    ensures
        data_stream(packed(name, size, content, digest)) == Ok::<PayloadStream, TsboxError>(
            PayloadStream {
                bytes: header_bytes(name, size) + content + trailer_bytes(digest),
                end: StreamEnd::Eof,
            },
        ),
{
    let parts = container_parts(name, size, content, digest);
    let payloads = part_payloads(parts);
    let none = Seq::<u8>::empty();
    lemma_part_payloads(parts);
    lemma_joined_parts(name, size, content, digest);
    assert(payloads.len() >= 1) by {
        assert(parts[0].len() > 0);
    }
    lemma_cut_stream(parts, payloads.len() as int, none);
    assert(payloads.take(payloads.len() as int) =~= payloads);
    assert(table_packets() + data_packets(0, payloads) + none =~= packed(
        name,
        size,
        content,
        digest,
    ));
}

/// A file comes back as it was packed: extracting a packed file gives its
/// name, its size and its content, for every name of 1 to 4096 bytes without a
/// slash. No file has a name that is empty or holds a slash.
pub proof fn law_extract_gives_back_what_was_packed(name: Seq<char>, content: Seq<u8>)
    requires
        1 <= encode_utf8(name).len() <= MAX_NAME_LEN,
        is_basename(encode_utf8(name)),
        content.len() <= u64::MAX,
    ensures
        ({
            let size = content.len() as u64;
            let data = packed(encode_utf8(name), size, content, sha256(content)@);
            let metadata = MetadataView { original_name: name, size };
            &&& probed(data) == Ok::<Option<MetadataView>, TsboxError>(Some(metadata))
            &&& extracted(data) == Ok::<(MetadataView, Seq<u8>), TsboxError>((metadata, content))
        }),
{
    let size = content.len() as u64;
    let bytes = encode_utf8(name);
    let digest = sha256(content)@;
    let header = header_bytes(bytes, size);
    let trailer = trailer_bytes(digest);
    let all = header + content + trailer;
    law_packed_stream(bytes, size, content, digest);
    encode_utf8_valid_utf8(name);
    encode_utf8_decode_utf8(name);
    lemma_be64_round_trip(size);

    assert(header.len() == 18 + bytes.len());
    assert(all.take(7) =~= magic());
    assert(all[7] == VERSION);
    assert(all[8] == be16_bytes(bytes.len() as u16)[0]);
    assert(all[9] == be16_bytes(bytes.len() as u16)[1]);
    assert(name_len(all) == bytes.len());
    assert(all.subrange(18, 18 + bytes.len() as int) =~= bytes);
    assert(all.subrange(10, 18) =~= be64_bytes(size));

    let body = all.skip(18 + bytes.len() as int);
    assert(body =~= content + trailer);
    assert(digest.len() == 32);
    assert(body.take(size as int) =~= content);
    assert(body.subrange(size as int, size + TRAILER_LEN) =~= trailer);
    assert(trailer.take(8) =~= trailer_magic());
    assert(trailer.skip(8) =~= digest);
}

/// What is extracted is what a probe announced: the same name and size, and a
/// content of that size.
pub proof fn law_extract_agrees_with_probe(data: Seq<u8>)
    ensures
        extracted(data) matches Ok((metadata, content)) ==> {
            &&& probed(data) == Ok::<Option<MetadataView>, TsboxError>(Some(metadata))
            &&& content.len() == metadata.size
        },
{
}

/// A container is given out if and only if its content has the digest that its
/// trailer holds.
pub proof fn law_digest_decides(data: Seq<u8>)
    requires
        container_of(data) is Ok,
    ensures
        ({
            let found = container_of(data).unwrap();
            extracted(data) is Ok <==> found.trailer == trailer_bytes(sha256(found.content)@)
        }),
{
    let found = container_of(data).unwrap();
    let digest = sha256(found.content)@;
    let whole = trailer_bytes(digest);
    assert(whole.take(8) =~= trailer_magic());
    assert(whole.skip(8) =~= digest);
    assert(found.trailer =~= found.trailer.take(8) + found.trailer.skip(8));
}

/// The first packets of a packed file.
proof fn lemma_cut_packets(payloads: Seq<Seq<u8>>, count: int)
    requires
        0 <= count <= payloads.len(),
        fit_packets(payloads),
    ensures
        data_packets(0, payloads).take(188 * count) == data_packets(0, payloads.take(count)),
{
    let a = payloads.take(count);
    let b = payloads.skip(count);
    assert(payloads =~= a + b);
    lemma_data_packets_concat(0, a, b);
    assert(fit_packets(a));
    lemma_data_packets_len(0, a);
    assert(data_packets(0, payloads).take(188 * count) =~= data_packets(0, a));
}

/// Payloads that are not all of them hold a first part of the bytes, and not
/// all of them.
proof fn lemma_cut_payloads(payloads: Seq<Seq<u8>>, count: int)
    requires
        0 <= count < payloads.len(),
        fit_packets(payloads),
    ensures
        joined(payloads.take(count)).len() < joined(payloads).len(),
        joined(payloads.take(count)) == joined(payloads).take(
            joined(payloads.take(count)).len() as int,
        ),
{
    let a = payloads.take(count);
    let b = payloads.skip(count);
    assert(payloads =~= a + b);
    lemma_joined_concat(a, b);
    assert(b[0] == payloads[count]);
    assert(joined(b).len() >= b[0].len());
    assert(joined(a) =~= joined(payloads).take(joined(a).len() as int));
}

/// A packed file of which anything is missing at the end is refused.
pub proof fn law_truncated_file_is_refused(
    name: Seq<u8>,
    content: Seq<u8>,
    digest: Seq<u8>,
    kept: int,
)
    requires
        name.len() <= 65535,
        content.len() <= u64::MAX,
        digest.len() == 32,
        0 <= kept < packed(name, content.len() as u64, content, digest).len(),
    ensures
        extracted(packed(name, content.len() as u64, content, digest).take(kept)) is Err,
{
    let size = content.len() as u64;
    let data = packed(name, size, content, digest);
    let cut = data.take(kept);
    let parts = container_parts(name, size, content, digest);
    let payloads = part_payloads(parts);
    let packets = data_packets(0, payloads);
    lemma_part_payloads(parts);
    lemma_joined_parts(name, size, content, digest);
    lemma_data_packets_len(0, payloads);
    law_section_packet_is_packet(0, true, pat_bytes());
    law_section_packet_is_packet(PMT_PID, true, pmt_bytes());
    assert(table_packets().len() == 376);
    if kept < 564 {
        assert(packet_size_of(cut) is None);
    } else {
        let count = (kept - 376) / 188;
        let tail = cut.skip(376 + 188 * count);
        lemma_cut_packets(payloads, count);
        assert(cut =~= table_packets() + packets.take(188 * count) + tail);
        lemma_cut_stream(parts, count, tail);
        lemma_cut_payloads(payloads, count);
        let all = header_bytes(name, size) + content + trailer_bytes(digest);
        let bytes = joined(payloads.take(count));
        assert(bytes == all.take(bytes.len() as int));
        if bytes.len() >= 18 {
            assert(bytes[8] == be16_bytes(name.len() as u16)[0]);
            assert(bytes[9] == be16_bytes(name.len() as u16)[1]);
            assert(name_len(bytes) == name.len());
            assert(bytes.subrange(10, 18) =~= be64_bytes(size));
            lemma_be64_round_trip(size);
            assert(bytes.skip(18 + name_len(bytes)).len() < size + TRAILER_LEN || bytes.len() < 18
                + name_len(bytes));
        }
    }
}

} // verus!
