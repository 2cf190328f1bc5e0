//! What reading the container in a stream promises, byte by byte.

use vstd::prelude::*;
use vstd::utf8::decode_utf8;
use vstd::utf8::valid_utf8;

use crate::bytes::be64;
use crate::bytes::be64_bytes;
use crate::bytes::joined;
use crate::bytes::lemma_be64_round_trip;
use crate::custom_ts::container_of;
use crate::custom_ts::data_stream;
use crate::custom_ts::extracted;
use crate::custom_ts::magic;
use crate::custom_ts::metadata_of;
use crate::custom_ts::metadata_taken;
use crate::custom_ts::name_len;
use crate::custom_ts::packet_size_of;
use crate::custom_ts::probed;
use crate::custom_ts::trailer_magic;
use crate::custom_ts::trailer_verdict;
use crate::custom_ts::unpacked;
use crate::custom_ts::MetadataView;
use crate::custom_ts::Part;
use crate::custom_ts::TsboxError;
use crate::custom_ts::UnpackedView;
use crate::demux_laws::own_packets;
use crate::digest::sha256;
use crate::packet::payload_of;
use crate::packet::pid_of;
use crate::packet::unit_at;
use crate::sync_laws::are_frames;
use crate::sync_laws::inner;
use crate::ts_reader::payload_stream;
use crate::ts_reader::stream_stop;
use crate::ts_reader::PayloadStream;
use crate::ts_reader::StreamEnd;

verus! {

/// The packet size shows in the first three packets, which must be all there:
/// 188 where sync bytes stand at their heads, else 192 where they stand behind
/// timestamps.
pub proof fn law_packet_size_shows(data: Seq<u8>)
    ensures
        ({
            let plain = data.len() >= 564 && data[0] == 0x47 && data[188] == 0x47 && data[376]
                == 0x47;
            let stamped = data.len() >= 580 && data[4] == 0x47 && data[196] == 0x47 && data[388]
                == 0x47;
            &&& packet_size_of(data) == (if plain {
                Some(188int)
            } else if stamped {
                Some(192int)
            } else {
                None
            })
            &&& plain ==> data_stream(data) == Ok::<PayloadStream, TsboxError>(
                payload_stream(data, 0, 188, 0x0100),
            )
            &&& !plain && stamped ==> data_stream(data) == Ok::<PayloadStream, TsboxError>(
                payload_stream(data, 0, 192, 0x0100),
            )
            &&& !plain && !stamped ==> data_stream(data) == Err::<PayloadStream, TsboxError>(
                if data.len() == 0 {
                    TsboxError::EmptyInput
                } else {
                    TsboxError::UnrecognizedLayout
                },
            )
        }),
{
}

/// The payloads of some packets, one after the other.
pub open spec fn payload_bytes(packets: Seq<Seq<u8>>) -> Seq<u8> {
    joined(packets.map_values(|p: Seq<u8>| payload_of(p).unwrap()))
}

/// No packet of this identifier claims an adaptation field longer than itself.
pub open spec fn adaptations_fit(packets: Seq<Seq<u8>>, pid: u16) -> bool {
    forall|i: int|
        0 <= i < packets.len() && pid_of(#[trigger] packets[i]) == pid && (packets[i][3] / 16) % 4
            == 3 ==> packets[i][4] <= 183
}

/// A stream is the payloads of the packets of its identifier, one after the
/// other; other packets, and packets without a payload, do not matter. It goes
/// on behind those packets.
pub proof fn law_stream_is_its_payloads(
    before: Seq<u8>,
    frames: Seq<Seq<u8>>,
    after: Seq<u8>,
    size: int,
    pid: u16,
)
    requires
        size >= 188,
        are_frames(frames, size),
        adaptations_fit(inner(frames, size), pid),
    ensures
        ({
            let data = before + joined(frames) + after;
            let end = before.len() + joined(frames).len();
            let rest = payload_stream(data, end as int, size, pid);
            payload_stream(data, before.len() as int, size, pid) == (PayloadStream {
                bytes: payload_bytes(own_packets(inner(frames, size), pid)) + rest.bytes,
                end: rest.end,
            })
        }),
    decreases frames.len(),
{
    let data = before + joined(frames) + after;
    let pos = before.len() as int;
    let own = |p: Seq<u8>| pid_of(p) == pid && payload_of(p) is Some;
    let bytes = |p: Seq<u8>| payload_of(p).unwrap();
    let packets = inner(frames, size);
    reveal(Seq::filter);
    if frames.len() == 0 {
        assert(packets =~= Seq::<Seq<u8>>::empty());
        assert(own_packets(packets, pid) =~= Seq::<Seq<u8>>::empty());
        assert(own_packets(packets, pid).map_values(bytes) =~= Seq::<Seq<u8>>::empty());
        assert(payload_bytes(own_packets(packets, pid)) =~= Seq::<u8>::empty());
        assert(Seq::<u8>::empty() + payload_stream(data, pos, size, pid).bytes =~= payload_stream(
            data,
            pos,
            size,
            pid,
        ).bytes);
    } else {
        let frame = frames[0];
        let others = frames.drop_first();
        let packet = frame.skip(size - 188);
        assert forall|i: int| 0 <= i < others.len() implies (#[trigger] others[i]).len() == size
            && others[i][size - 188] == 0x47 by {
            assert(others[i] == frames[i + 1]);
        }
        assert(packets =~= seq![packet] + inner(others, size));
        assert(adaptations_fit(inner(others, size), pid)) by {
            let list = inner(others, size);
            assert forall|i: int|
                0 <= i < list.len() && pid_of(#[trigger] list[i]) == pid && (list[i][3] / 16) % 4
                    == 3 implies list[i][4] <= 183 by {
                assert(list[i] == packets[i + 1]);
            }
        }
        law_stream_is_its_payloads(before + frame, others, after, size, pid);
        assert(data =~= (before + frame) + joined(others) + after);
        assert(unit_at(data, pos, size) =~= packet);
        assert(packet[0] == frame[size - 188]);
        assert(packets[0] == packet);
        lemma_filter_front(packet, inner(others, size), own);
        let mine = own_packets(inner(others, size), pid);
        let rest = payload_stream(data, pos + joined(frames).len(), size, pid);
        if own(packet) {
            let all = seq![packet] + mine;
            assert(own_packets(packets, pid) =~= all);
            assert(all.map_values(bytes).drop_first() =~= mine.map_values(bytes));
            assert(payload_bytes(all) =~= payload_of(packet).unwrap() + payload_bytes(mine));
            assert(payload_of(packet).unwrap() + (payload_bytes(mine) + rest.bytes)
                =~= payload_bytes(all) + rest.bytes);
        } else {
            assert(own_packets(packets, pid) =~= mine);
        }
    }
}

/// What is kept of a list that begins with an item.
proof fn lemma_filter_front(first: Seq<u8>, rest: Seq<Seq<u8>>, keep: spec_fn(Seq<u8>) -> bool)
    ensures
        (seq![first] + rest).filter(keep) == (if keep(first) {
            seq![first] + rest.filter(keep)
        } else {
            rest.filter(keep)
        }),
    decreases rest.len(),
{
    reveal(Seq::filter);
    let all = seq![first] + rest;
    if rest.len() == 0 {
        assert(all.drop_last() =~= Seq::<Seq<u8>>::empty());
        assert(all.last() == first);
        assert(all.drop_last().filter(keep) =~= Seq::<Seq<u8>>::empty());
        assert(rest.filter(keep) =~= Seq::<Seq<u8>>::empty());
        assert(all.filter(keep) =~= (if keep(first) {
            seq![first] + rest.filter(keep)
        } else {
            rest.filter(keep)
        }));
    } else {
        lemma_filter_front(first, rest.drop_last(), keep);
        assert(all.drop_last() =~= seq![first] + rest.drop_last());
        assert(all.last() == rest.last());
        assert(all.filter(keep) =~= (if keep(first) {
            seq![first] + rest.filter(keep)
        } else {
            rest.filter(keep)
        }));
    }
}

/// A stream ends where fewer bytes than a packet are left, and breaks off at a
/// packet without its sync byte, and at one of its own whose adaptation field
/// is longer than the packet.
pub proof fn law_stream_ends(data: Seq<u8>, pos: int, size: int, pid: u16)
    requires
        size >= 188,
        0 <= pos <= data.len(),
    ensures
        ({
            let stream = payload_stream(data, pos, size, pid);
            let head = pos + size - 188;
            &&& data.len() < pos + size ==> stream == (PayloadStream {
                bytes: Seq::empty(),
                end: StreamEnd::Eof,
            })
            &&& data.len() >= pos + size && data[head] != 0x47 ==> stream == (PayloadStream {
                bytes: Seq::empty(),
                end: StreamEnd::LostSync,
            })
            &&& data.len() >= pos + size && data[head] == 0x47 && pid_of(
                data.subrange(head, pos + size),
            ) == pid && (data[head + 3] / 16) % 4 == 3 && data[head + 4] > 183 ==> stream == (
            PayloadStream { bytes: Seq::empty(), end: StreamEnd::InvalidAdaptation })
        }),
{
    if data.len() >= pos + size {
        let p = unit_at(data, pos, size);
        assert(p[0] == data[pos + size - 188]);
        assert(p[3] == data[pos + size - 185]);
        assert(p[4] == data[pos + size - 184]);
    }
}

/// The first eighteen bytes of a container: the mark, the version, the length of
/// the name and the size of the file.
pub open spec fn fixed_head(version: u8, len: u16, size: u64) -> Seq<u8> {
    seq![
        0x54u8,
        0x53u8,
        0x42u8,
        0x4Fu8,
        0x58u8,
        0x31u8,
        0x00u8,
        version,
        (len / 256) as u8,
        (len % 256) as u8,
    ] + be64_bytes(size)
}

/// What the first bytes of a container say.
proof fn lemma_fixed_head(version: u8, len: u16, size: u64, rest: Seq<u8>)
    ensures
        ({
            let bytes = fixed_head(version, len, size) + rest;
            &&& bytes.len() == 18 + rest.len()
            &&& bytes.take(7) == magic()
            &&& bytes[7] == version
            &&& name_len(bytes) == len
            &&& be64(bytes.subrange(10, 18)) == size
        }),
{
    let head = fixed_head(version, len, size);
    let bytes = head + rest;
    lemma_be64_round_trip(size);
    assert(bytes.take(7) =~= magic());
    assert(bytes[7] == head[7] && bytes[8] == head[8] && bytes[9] == head[9]);
    assert(bytes.subrange(10, 18) =~= be64_bytes(size));
}

/// The head of a container reads as it was written: another version is refused,
/// and so is a name that is empty, longer than 4096 bytes, no text, or a path;
/// any other name comes back, with the size.
pub proof fn law_head_reads_back(
    version: u8,
    name: Seq<u8>,
    size: u64,
    rest: Seq<u8>,
    end: StreamEnd,
    strict: bool,
)
    requires
        name.len() <= 65535,
    ensures
        ({
            let bytes = fixed_head(version, name.len() as u16, size) + name + rest;
            metadata_of(PayloadStream { bytes, end }, strict) == (if version != 1 {
                Err::<Option<MetadataView>, TsboxError>(TsboxError::UnsupportedVersion(version))
            } else if name.len() == 0 || name.len() > 4096 {
                Err(TsboxError::NameLength(name.len() as usize))
            } else if !valid_utf8(name) {
                Err(TsboxError::NameNotUtf8)
            } else if name.contains(0x2Fu8) {
                Err(TsboxError::NotBasename)
            } else {
                Ok(Some(MetadataView { original_name: decode_utf8(name), size }))
            })
        }),
{
    let head = fixed_head(version, name.len() as u16, size);
    let bytes = head + name + rest;
    lemma_fixed_head(version, name.len() as u16, size, name + rest);
    assert(bytes =~= head + (name + rest));
    assert(bytes.subrange(18, 18 + name.len() as int) =~= name);
}

/// A stream that does not begin with the mark holds no container. One too short
/// to tell holds none where its end is that of the file, unless a container is
/// asked for.
pub proof fn law_other_streams_hold_no_container(stream: PayloadStream, strict: bool)
    ensures
        stream.bytes.len() >= 18 && stream.bytes.take(7) != seq![
            0x54u8,
            0x53u8,
            0x42u8,
            0x4Fu8,
            0x58u8,
            0x31u8,
            0x00u8,
        ] ==> metadata_of(stream, strict) == Ok::<Option<MetadataView>, TsboxError>(None),
        stream.bytes.len() < 18 ==> metadata_of(stream, strict) == (if stream.end == StreamEnd::Eof
            && !strict {
            Ok::<Option<MetadataView>, TsboxError>(None)
        } else {
            Err(TsboxError::Truncated(Part::Header, stream.end))
        }),
{
}

/// A stream that ends inside the name, the content or the trailer is refused,
/// and the error tells in which.
pub proof fn law_cut_container_is_refused(
    name: Seq<u8>,
    size: u64,
    rest: Seq<u8>,
    end: StreamEnd,
    strict: bool,
)
    requires
        1 <= name.len() <= 4096,
        valid_utf8(name),
        !name.contains(0x2Fu8),
    ensures
        ({
            let head = fixed_head(1, name.len() as u16, size);
            let stream = PayloadStream { bytes: head + name + rest, end };
            &&& rest.len() < size ==> unpacked(stream) == Err::<UnpackedView, TsboxError>(
                TsboxError::Truncated(Part::Content, end),
            )
            &&& size <= rest.len() < size + 40 ==> unpacked(stream) == Err::<
                UnpackedView,
                TsboxError,
            >(TsboxError::Truncated(Part::Trailer, end))
            &&& rest.len() >= size + 40 ==> unpacked(stream) == Ok::<UnpackedView, TsboxError>(
                UnpackedView {
                    metadata: MetadataView { original_name: decode_utf8(name), size },
                    content: rest.take(size as int),
                    trailer: rest.subrange(size as int, size + 40),
                },
            )
            &&& rest.len() < name.len() ==> metadata_of(
                PayloadStream { bytes: head + rest, end },
                strict,
            ) == Err::<Option<MetadataView>, TsboxError>(TsboxError::Truncated(Part::Name, end))
        }),
{
    let head = fixed_head(1, name.len() as u16, size);
    let bytes = head + name + rest;
    law_head_reads_back(1, name, size, rest, end, true);
    lemma_fixed_head(1, name.len() as u16, size, name + rest);
    assert(bytes =~= head + (name + rest));
    assert(bytes.skip(18 + name.len() as int) =~= rest);
    lemma_fixed_head(1, name.len() as u16, size, rest);
}

/// A trailer passes if and only if it is the mark and the digest of the content;
/// without the mark it is no trailer, with another digest the content is
/// damaged.
pub proof fn law_trailer_is_mark_and_digest(trailer: Seq<u8>, digest: Seq<u8>)
    requires
        trailer.len() >= 8,
    ensures
        ({
            let mark = seq![
                0x54u8,
                0x53u8,
                0x42u8,
                0x4Fu8,
                0x58u8,
                0x45u8,
                0x4Eu8,
                0x44u8,
            ];
            &&& trailer_verdict(trailer, digest) is Ok <==> trailer == mark + digest
            &&& trailer.take(8) != mark ==> trailer_verdict(trailer, digest) == Err::<
                (),
                TsboxError,
            >(TsboxError::InvalidTrailer)
            &&& trailer.take(8) == mark && trailer.skip(8) != digest ==> trailer_verdict(
                trailer,
                digest,
            ) == Err::<(), TsboxError>(TsboxError::ChecksumMismatch)
        }),
{
    let mark = trailer_magic();
    assert(trailer =~= trailer.take(8) + trailer.skip(8));
    assert((mark + digest).take(8) =~= mark);
    assert((mark + digest).skip(8) =~= digest);
}

/// What is probed and extracted is what the data stream holds: the head alone
/// for a probe; for an extraction all of it, and only where the trailer has the
/// digest of the content.
pub proof fn law_extraction_is_of_the_data_stream(data: Seq<u8>)
    ensures
        match data_stream(data) {
            Err(e) => {
                &&& probed(data) == Err::<Option<MetadataView>, TsboxError>(e)
                &&& extracted(data) == Err::<(MetadataView, Seq<u8>), TsboxError>(e)
            },
            Ok(stream) => {
                &&& probed(data) == metadata_of(stream, false)
                &&& match unpacked(stream) {
                    Err(e) => extracted(data) == Err::<(MetadataView, Seq<u8>), TsboxError>(e),
                    Ok(u) => match trailer_verdict(u.trailer, sha256(u.content)@) {
                        Err(e) => extracted(data) == Err::<(MetadataView, Seq<u8>), TsboxError>(e),
                        Ok(()) => extracted(data) == Ok::<(MetadataView, Seq<u8>), TsboxError>(
                            (u.metadata, u.content),
                        ),
                    },
                }
                &&& metadata_of(stream, true) matches Ok(None) ==> container_of(data) == Err::<
                    UnpackedView,
                    TsboxError,
                >(TsboxError::NotTsbox)
            },
        },
{
}

/// A reader stops where the stream does: it passes over whole packets, and comes
/// to stand behind the packet that cannot be read, or before what is no packet.
pub proof fn law_reader_stops_where_the_stream_does(
    before: Seq<u8>,
    frames: Seq<Seq<u8>>,
    after: Seq<u8>,
    size: int,
    pid: u16,
)
    requires
        size >= 188,
        are_frames(frames, size),
        adaptations_fit(inner(frames, size), pid),
        after.len() < size || after[size - 188] != 0x47,
    ensures
        stream_stop(before + joined(frames) + after, before.len() as int, size, pid) == before.len()
            + joined(frames).len() + (if after.len() < size {
            0int
        } else {
            size
        }),
    decreases frames.len(),
{
    let data = before + joined(frames) + after;
    let pos = before.len() as int;
    if frames.len() == 0 {
        if after.len() >= size {
            assert(unit_at(data, pos, size)[0] == after[size - 188]);
        }
    } else {
        let frame = frames[0];
        let others = frames.drop_first();
        let packets = inner(frames, size);
        let packet = frame.skip(size - 188);
        assert forall|i: int| 0 <= i < others.len() implies (#[trigger] others[i]).len() == size
            && others[i][size - 188] == 0x47 by {
            assert(others[i] == frames[i + 1]);
        }
        assert(adaptations_fit(inner(others, size), pid)) by {
            let list = inner(others, size);
            assert forall|i: int|
                0 <= i < list.len() && pid_of(#[trigger] list[i]) == pid && (list[i][3] / 16) % 4
                    == 3 implies list[i][4] <= 183 by {
                assert(list[i] == packets[i + 1]);
            }
        }
        law_reader_stops_where_the_stream_does(before + frame, others, after, size, pid);
        assert(data =~= (before + frame) + joined(others) + after);
        assert(unit_at(data, pos, size) =~= packet);
        assert(packet[0] == frame[size - 188]);
        assert(packets[0] == packet);
    }
}

/// Reading the head takes its first eighteen bytes, and the name too where those
/// announce a readable one.
pub proof fn law_head_takes_no_more_than_it_needs(stream: PayloadStream)
    ensures
        ({
            let b = stream.bytes;
            let len = b[8] * 256 + b[9];
            let named = b.take(7) == seq![
                0x54u8,
                0x53u8,
                0x42u8,
                0x4Fu8,
                0x58u8,
                0x31u8,
                0x00u8,
            ] && b[7] == 1 && 1 <= len <= 4096;
            metadata_taken(stream) == (if b.len() < 18 {
                None
            } else if !named {
                Some(18int)
            } else if b.len() < 18 + len {
                None
            } else {
                Some(18 + len)
            })
        }),
{
}

} // verus!
