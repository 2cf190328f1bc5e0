//! A packed file is a transport stream like any other.

use vstd::prelude::*;

use crate::analysis::analyzed;
use crate::analysis::lemma_streams_gap;
use crate::analysis::no_analysis;
use crate::analysis::streams_below;
use crate::analysis::streams_in;
use crate::analysis::streams_of;
use crate::analysis::supported;
use crate::analysis::with_packet;
use crate::analysis::with_pat;
use crate::analysis::with_pmt;
use crate::analysis::with_programs;
use crate::analysis::Analysis;
use crate::bytes::joined;
use crate::bytes::pieces;
use crate::crc::crc32;
use crate::crc::law_crc_of_sealed_data_is_zero;
use crate::custom_ts::container_parts;
use crate::custom_ts::data_stream;
use crate::custom_ts::extracted;
use crate::custom_ts::lemma_part_payloads_push;
use crate::custom_ts::packed;
use crate::custom_ts::packet_size_of;
use crate::custom_ts::part_payloads;
use crate::custom_ts::probed;
use crate::custom_ts::trailer_bytes;
use crate::custom_ts_laws::law_data_packet_carries_payload;
use crate::custom_ts_laws::law_section_packet_is_packet;
use crate::custom_ts_laws::lemma_part_payloads;
use crate::error::DemuxError;
use crate::packet::counter_of;
use crate::packet::is_packet;
use crate::packet::payload_of;
use crate::packet::payload_offset;
use crate::packet::pid_of;
use crate::packet::starts_unit;
use crate::packet::unit_at;
use crate::packet::SYNC_BYTE;
use crate::psi::cut_sections;
use crate::psi::declared_len;
use crate::psi::pat_entry;
use crate::psi::pat_programs;
use crate::psi::pat_result;
use crate::psi::pmt_loop;
use crate::psi::pmt_streams;
use crate::psi::pushed;
use crate::psi::Cut;
use crate::psi::StreamInfo;
use crate::sync::packets_of;
use crate::sync_laws::are_frames;
use crate::sync_laws::inner;
use crate::sync_laws::law_plain_file_is_read;
use crate::ts_reader::payload_stream;
use crate::ts_reader::PayloadStream;
use crate::ts_reader::StreamEnd;
use crate::ts_writer::data_packet;
use crate::ts_writer::data_packets;
use crate::ts_writer::pat_bytes;
use crate::ts_writer::pmt_bytes;
use crate::ts_writer::section_packet;
use crate::ts_writer::stuffing;
use crate::ts_writer::DATA_PID;
use crate::ts_writer::PMT_PID;

verus! {

/// The packets that carry a list of payloads.
pub open spec fn data_units(counter: u8, payloads: Seq<Seq<u8>>) -> Seq<Seq<u8>> {
    Seq::new(
        payloads.len(),
        |i: int| data_packet(((counter + i) % 16) as u8, payloads[i]),
    )
}

/// The packets of a packed file: the two tables and the data.
pub open spec fn packed_units(name: Seq<u8>, size: u64, content: Seq<u8>, digest: Seq<u8>) -> Seq<
    Seq<u8>,
> {
    seq![section_packet(0, true, pat_bytes()), section_packet(PMT_PID, true, pmt_bytes())]
        + data_units(0, part_payloads(container_parts(name, size, content, digest)))
}

/// The bytes of the data packets, one after the other.
proof fn lemma_joined_units(counter: u8, payloads: Seq<Seq<u8>>)
    requires
        counter < 16,
    ensures
        joined(data_units(counter, payloads)) == data_packets(counter, payloads),
    decreases payloads.len(),
{
    let units = data_units(counter, payloads);
    if payloads.len() > 0 {
        let next = ((counter + 1) % 16) as u8;
        let rest = payloads.drop_first();
        lemma_joined_units(next, rest);
        assert(units.drop_first() =~= data_units(next, rest)) by {
            assert forall|i: int| 0 <= i < rest.len() implies #[trigger] units.drop_first()[i]
                == data_units(next, rest)[i] by {
                assert((counter + (i + 1)) % 16 == (next + i) % 16);
            }
        }
    }
}

/// A packed file is a valid transport stream: whole packets of 188 bytes, each
/// with its sync byte; the program association table first, the program map
/// table next, and after them only packets of the data stream, whose counters
/// go up by one from zero, without a gap.
pub proof fn law_packed_file_is_a_transport_stream(
    name: Seq<u8>,
    size: u64,
    content: Seq<u8>,
    digest: Seq<u8>,
)
    ensures
        ({
            let units = packed_units(name, size, content, digest);
            &&& packed(name, size, content, digest) == joined(units)
            &&& units.len() >= 3
            &&& forall|i: int| 0 <= i < units.len() ==> is_packet(#[trigger] units[i])
            &&& pid_of(units[0]) == 0
            &&& pid_of(units[1]) == PMT_PID
            &&& forall|i: int|
                2 <= i < units.len() ==> pid_of(#[trigger] units[i]) == DATA_PID && counter_of(
                    units[i],
                ) == (i - 2) % 16
        }),
{
    let units = packed_units(name, size, content, digest);
    let parts = container_parts(name, size, content, digest);
    let payloads = part_payloads(parts);
    let data = data_units(0, payloads);
    let pat = section_packet(0, true, pat_bytes());
    let pmt = section_packet(PMT_PID, true, pmt_bytes());
    lemma_part_payloads(parts);
    lemma_joined_units(0, payloads);
    law_section_packet_is_packet(0, true, pat_bytes());
    law_section_packet_is_packet(PMT_PID, true, pmt_bytes());
    assert(payloads.len() >= 1) by {
        assert(parts[0].len() > 0);
    }
    assert forall|i: int| 2 <= i < units.len() implies is_packet(#[trigger] units[i]) && pid_of(
        units[i],
    ) == DATA_PID && counter_of(units[i]) == (i - 2) % 16 by {
        assert(units[i] == data[i - 2]);
        assert(1 <= payloads[i - 2].len() <= 184);
        law_data_packet_carries_payload(((i - 2) % 16) as u8, payloads[i - 2]);
    }
    assert(units.drop_first().drop_first() =~= data);
    assert(units.drop_first()[0] == pmt);
    reveal_with_fuel(joined, 3);
    assert(joined(units) =~= pat + (pmt + joined(data)));
    assert(packed(name, size, content, digest) =~= joined(units));
}

/// The reader for transport streams of any kind sees exactly the packets of a
/// packed file.
pub proof fn law_packed_file_is_read_as_packets(
    name: Seq<u8>,
    size: u64,
    content: Seq<u8>,
    digest: Seq<u8>,
)
    ensures
        packets_of(packed(name, size, content, digest)) == Ok::<Seq<Seq<u8>>, DemuxError>(
            packed_units(name, size, content, digest),
        ),
{
    let units = packed_units(name, size, content, digest);
    law_packed_file_is_a_transport_stream(name, size, content, digest);
    assert(are_frames(units, 188)) by {
        assert forall|i: int| 0 <= i < units.len() implies (#[trigger] units[i]).len() == 188
            && units[i][0] == 0x47 by {
            assert(is_packet(units[i]));
        }
    }
    law_plain_file_is_read(units);
}

/// The tables of a packed file pass their checksums and announce its one
/// stream: program 1, described under the map table's identifier, has a private
/// stream under the data identifier, of no kind that is taken out raw.
pub proof fn law_tables_announce_the_data()
    ensures
        crc32(pat_bytes()) == 0,
        crc32(pmt_bytes()) == 0,
        pat_result(pat_bytes()) == Ok::<Seq<(u16, u16)>, DemuxError>(seq![(1u16, PMT_PID)]),
        pmt_streams(1, pmt_bytes()) == Ok::<Seq<StreamInfo>, DemuxError>(
            seq![StreamInfo { program_number: 1, pid: DATA_PID, kind: None }],
        ),
{
    law_crc_of_sealed_data_is_zero(pat_bytes().take(12));
    law_crc_of_sealed_data_is_zero(pmt_bytes().take(17));
    let pat = pat_bytes();
    let pmt = pmt_bytes();
    assert(pat.take(12) =~= seq![
        0x00u8, 0xB0u8, 0x0Du8, 0x00u8, 0x01u8, 0xC1u8, 0x00u8, 0x00u8,
        0x00u8, 0x01u8, 0xF0u8, 0x00u8,
    ]);
    assert(pmt.take(17) =~= seq![
        0x02u8, 0xB0u8, 0x12u8, 0x00u8, 0x01u8, 0xC1u8, 0x00u8, 0x00u8,
        0xE1u8, 0x00u8, 0xF0u8, 0x00u8, 0x06u8, 0xE1u8, 0x00u8, 0xF0u8,
        0x00u8,
    ]);
    let entries = Seq::new(1, |i: int| pat_entry(pat, i));
    let kept = |entry: (u16, u16)| entry.0 != 0;
    reveal(Seq::filter);
    assert(entries.drop_last() =~= Seq::<(u16, u16)>::empty());
    assert(entries.drop_last().filter(kept) =~= Seq::<(u16, u16)>::empty());
    assert(entries.last() == (1u16, PMT_PID));
    assert(pat_programs(pat) =~= seq![(1u16, PMT_PID)]);
    reveal_with_fuel(pmt_loop, 2);
    assert(pmt_loop(1, pmt, 17, 17) == Some(Seq::<StreamInfo>::empty()));
    let stream = StreamInfo { program_number: 1, pid: DATA_PID, kind: None };
    assert(pmt.subrange(17, 17) =~= Seq::<u8>::empty());
    assert(seq![stream] + Seq::<StreamInfo>::empty() =~= seq![stream]);
}

/// What the payloads of one identifier in a list of packets come to.
pub open spec fn stream_of_packets(packets: Seq<Seq<u8>>, pid: u16) -> PayloadStream
    decreases packets.len(),
{
    if packets.len() == 0 {
        PayloadStream { bytes: Seq::empty(), end: StreamEnd::Eof }
    } else {
        let rest = stream_of_packets(packets.drop_first(), pid);
        if pid_of(packets[0]) != pid {
            rest
        } else {
            match payload_offset(packets[0]) {
                None => rest,
                Some(start) => if start > 188 {
                    PayloadStream { bytes: Seq::empty(), end: StreamEnd::InvalidAdaptation }
                } else {
                    PayloadStream { bytes: packets[0].skip(start) + rest.bytes, end: rest.end }
                },
            }
        }
    }
}

/// The payload stream of a file depends on its packets alone, not on the
/// timestamps before them.
pub proof fn law_timestamps_do_not_matter(
    before: Seq<u8>,
    frames: Seq<Seq<u8>>,
    size: int,
    pid: u16,
)
    requires
        size >= 188,
        are_frames(frames, size),
    ensures
        payload_stream(before + joined(frames), before.len() as int, size, pid)
            == stream_of_packets(inner(frames, size), pid),
    decreases frames.len(),
{
    let data = before + joined(frames);
    let pos = before.len() as int;
    if frames.len() == 0 {
        assert(data =~= before);
    } else {
        let frame = frames[0];
        let rest = frames.drop_first();
        assert forall|i: int| 0 <= i < rest.len() implies (#[trigger] rest[i]).len() == size
            && rest[i][size - 188] == 0x47 by {
            assert(rest[i] == frames[i + 1]);
        }
        law_timestamps_do_not_matter(before + frame, rest, size, pid);
        assert(data =~= (before + frame) + joined(rest));
        assert(unit_at(data, pos, size) =~= frame.skip(size - 188));
        assert(inner(frames, size)[0] == frame.skip(size - 188));
        assert(inner(frames, size).drop_first() =~= inner(rest, size));
        assert(frame.skip(size - 188)[0] == frame[size - 188]);
    }
}

/// Packets with four bytes before each.
pub open spec fn stamped(stamps: Seq<Seq<u8>>, units: Seq<Seq<u8>>) -> Seq<Seq<u8>> {
    Seq::new(units.len(), |i: int| stamps[i] + units[i])
}

/// A packed file whose packets have been given timestamps holds the same
/// container. The first timestamp must not begin like a packet.
pub proof fn law_timestamped_container_is_the_same(
    name: Seq<u8>,
    size: u64,
    content: Seq<u8>,
    digest: Seq<u8>,
    stamps: Seq<Seq<u8>>,
)
    requires
        ({
            let units = packed_units(name, size, content, digest);
            &&& stamps.len() == units.len()
            &&& forall|i: int| 0 <= i < stamps.len() ==> (#[trigger] stamps[i]).len() == 4
            &&& stamps[0][0] != SYNC_BYTE
        }),
    ensures
        ({
            let units = packed_units(name, size, content, digest);
            let with_stamps = joined(stamped(stamps, units));
            let plain = packed(name, size, content, digest);
            &&& data_stream(with_stamps) == data_stream(plain)
            &&& probed(with_stamps) == probed(plain)
            &&& extracted(with_stamps) == extracted(plain)
        }),
{
    let units = packed_units(name, size, content, digest);
    let plain = packed(name, size, content, digest);
    let frames = stamped(stamps, units);
    let data = joined(frames);
    let none = Seq::<u8>::empty();
    let parts = container_parts(name, size, content, digest);
    law_packed_file_is_a_transport_stream(name, size, content, digest);
    lemma_unit_count(name, size, content, digest);
    assert(are_frames(units, 188)) by {
        assert forall|i: int| 0 <= i < units.len() implies (#[trigger] units[i]).len() == 188
            && units[i][0] == 0x47 by {
            assert(is_packet(units[i]));
        }
    }
    assert(are_frames(frames, 192)) by {
        assert forall|i: int| 0 <= i < frames.len() implies (#[trigger] frames[i]).len() == 192
            && frames[i][4] == 0x47 by {
            assert(is_packet(units[i]));
            assert(stamps[i].len() == 4);
        }
    }
    assert(inner(frames, 192) =~= units) by {
        assert forall|i: int| 0 <= i < units.len() implies #[trigger] inner(frames, 192)[i]
            == units[i] by {
            assert(stamps[i].len() == 4);
            assert(frames[i].skip(4) =~= units[i]);
        }
    }
    assert(inner(units, 188) =~= units) by {
        assert forall|i: int| 0 <= i < units.len() implies #[trigger] inner(units, 188)[i]
            == units[i] by {
            assert(units[i].skip(0) =~= units[i]);
        }
    }
    law_timestamps_do_not_matter(none, frames, 192, DATA_PID);
    law_timestamps_do_not_matter(none, units, 188, DATA_PID);
    assert(none + data =~= data);
    assert(none + plain =~= plain);
    lemma_head_of_frames(frames, 192);
    lemma_head_of_frames(units, 188);
    assert(data[0] == frames[0][0]);
    assert(frames[0][0] == stamps[0][0]);
    assert(packet_size_of(data) == Some(192int));
    assert(packet_size_of(plain) == Some(188int));
}

/// A packed file has at least four packets: two tables, and one each for the
/// header and the trailer.
proof fn lemma_unit_count(name: Seq<u8>, size: u64, content: Seq<u8>, digest: Seq<u8>)
    ensures
        packed_units(name, size, content, digest).len() >= 4,
{
    let parts = container_parts(name, size, content, digest);
    let head = parts.drop_last();
    let trailer = trailer_bytes(digest);
    assert(parts =~= head.push(trailer));
    lemma_part_payloads_push(head, trailer);
    assert(head[0].len() > 0);
    assert(part_payloads(head).len() >= 1);
    assert(trailer.len() > 0);
    assert(pieces(trailer, 184).len() >= 1);
}

/// The first three units of a file stand at its head.
proof fn lemma_head_of_frames(frames: Seq<Seq<u8>>, size: int)
    requires
        size >= 188,
        frames.len() >= 4,
        are_frames(frames, size),
    ensures
        joined(frames).len() >= 4 * size,
        forall|i: int| 0 <= i < size ==> #[trigger] joined(frames)[i] == frames[0][i],
        joined(frames)[size - 188] == SYNC_BYTE,
        joined(frames)[size + size - 188] == SYNC_BYTE,
        joined(frames)[2 * size + size - 188] == SYNC_BYTE,
{
    let a = frames.drop_first();
    let b = a.drop_first();
    let c = b.drop_first();
    assert(a[0] == frames[1]);
    assert(b[0] == frames[2]);
    assert(c[0] == frames[3]);
    assert(joined(frames) == frames[0] + joined(a));
    assert(joined(a) == a[0] + joined(b));
    assert(joined(b) == b[0] + joined(c));
    assert(joined(c) == c[0] + joined(c.drop_first()));
    assert(joined(frames)[size - 188] == frames[0][size - 188]);
    assert(joined(frames)[size + size - 188] == frames[1][size - 188]);
    assert(joined(frames)[2 * size + size - 188] == frames[2][size - 188]);
}

/// What the tables of a packed file say.
spec fn announced() -> Analysis {
    Analysis {
        pat: Seq::empty(),
        pmts: Map::empty().insert(PMT_PID, Seq::empty()),
        program_of: Map::empty().insert(PMT_PID, 1u16),
        programs: Map::empty().insert(
            1u16,
            seq![StreamInfo { program_number: 1, pid: DATA_PID, kind: None }],
        ),
    }
}

/// What the first table of a packed file says.
spec fn announced_program() -> Analysis {
    Analysis {
        pat: Seq::empty(),
        pmts: Map::empty().insert(PMT_PID, Seq::empty()),
        program_of: Map::empty().insert(PMT_PID, 1u16),
        programs: Map::empty(),
    }
}

/// The packet of the first table says what it is to say.
proof fn lemma_pat_packet()
    ensures
        with_packet(no_analysis(), section_packet(0, true, pat_bytes())) == Ok::<
            Analysis,
            DemuxError,
        >(announced_program()),
{
    let start = no_analysis();
    let sections = seq![pat_bytes()];
    let entries = seq![(1u16, PMT_PID)];
    law_tables_announce_the_data();
    lemma_section_arrives(0, pat_bytes());
    assert(Analysis { pat: Seq::empty(), ..start } =~= start);
    assert(entries.drop_last() =~= Seq::<(u16, u16)>::empty());
    assert(with_programs(start, entries.drop_last()) == start);
    assert(with_programs(start, entries) =~= announced_program());
    assert(sections.drop_last() =~= Seq::<Seq<u8>>::empty());
    assert(with_pat(start, sections.drop_last()) == Ok::<Analysis, DemuxError>(start));
    assert(sections.last() == pat_bytes());
    assert(with_pat(start, sections) == Ok::<Analysis, DemuxError>(announced_program()));
}

/// The packet of the second table says what it is to say.
proof fn lemma_pmt_packet()
    ensures
        with_packet(announced_program(), section_packet(PMT_PID, true, pmt_bytes())) == Ok::<
            Analysis,
            DemuxError,
        >(announced()),
{
    let known = announced_program();
    let sections = seq![pmt_bytes()];
    law_tables_announce_the_data();
    lemma_section_arrives(PMT_PID, pmt_bytes());
    assert(known.pmts.insert(PMT_PID, Seq::empty()) =~= known.pmts);
    assert(sections.drop_last() =~= Seq::<Seq<u8>>::empty());
    assert(with_pmt(known, PMT_PID, sections.drop_last()) == Ok::<Analysis, DemuxError>(known));
    assert(sections.last() == pmt_bytes());
    assert(with_pmt(known, PMT_PID, sections) == Ok::<Analysis, DemuxError>(announced()));
}

/// The two table packets say what they are to say.
proof fn lemma_after_tables()
    ensures
        analyzed(
            seq![
                section_packet(0, true, pat_bytes()),
                section_packet(PMT_PID, true, pmt_bytes()),
            ],
        ) == Ok::<Analysis, DemuxError>(announced()),
{
    let pat = section_packet(0, true, pat_bytes());
    let pmt = section_packet(PMT_PID, true, pmt_bytes());
    let both = seq![pat, pmt];
    let one = seq![pat];
    lemma_pat_packet();
    lemma_pmt_packet();
    assert(both.drop_last() =~= one);
    assert(one.drop_last() =~= Seq::<Seq<u8>>::empty());
    assert(analyzed(one.drop_last()) == Ok::<Analysis, DemuxError>(no_analysis()));
    assert(one.last() == pat);
    assert(analyzed(one) == Ok::<Analysis, DemuxError>(announced_program()));
    assert(both.last() == pmt);
}

/// Packets of the data stream add nothing to what the tables say.
proof fn lemma_data_says_nothing(units: Seq<Seq<u8>>, count: int, said: Analysis)
    requires
        2 <= count <= units.len(),
        analyzed(units.take(2)) == Ok::<Analysis, DemuxError>(said),
        !said.pmts.contains_key(DATA_PID),
        forall|i: int| 2 <= i < units.len() ==> pid_of(#[trigger] units[i]) == DATA_PID,
    ensures
        analyzed(units.take(count)) == Ok::<Analysis, DemuxError>(said),
    decreases count,
{
    if count > 2 {
        lemma_data_says_nothing(units, count - 1, said);
        assert(units.take(count).drop_last() =~= units.take(count - 1));
        assert(units.take(count).last() == units[count - 1]);
    }
}

/// Nothing but a packed file is in a packed file: it has no streams that could
/// be taken out raw.
pub proof fn law_packed_file_has_no_raw_streams(
    name: Seq<u8>,
    size: u64,
    content: Seq<u8>,
    digest: Seq<u8>,
)
    ensures
        streams_in(packed(name, size, content, digest)) == Err::<Seq<StreamInfo>, DemuxError>(
            DemuxError::NoSupportedStreams,
        ),
{
    let units = packed_units(name, size, content, digest);
    law_packed_file_is_read_as_packets(name, size, content, digest);
    law_packed_file_is_a_transport_stream(name, size, content, digest);
    lemma_after_tables();
    assert(units.take(2) =~= seq![
        section_packet(0, true, pat_bytes()),
        section_packet(PMT_PID, true, pmt_bytes()),
    ]);
    let said = announced();
    lemma_data_says_nothing(units, units.len() as int, said);
    assert(units.take(units.len() as int) =~= units);
    let programs = said.programs;
    assert(programs.contains_key(1));
    lemma_streams_gap(programs, 2, 65536);
    lemma_streams_gap(programs, 0, 1);
    reveal_with_fuel(streams_below, 2);
    reveal(Seq::filter);
    let stream = StreamInfo { program_number: 1, pid: DATA_PID, kind: None };
    assert(seq![stream].drop_last() =~= Seq::<StreamInfo>::empty());
    assert(supported(seq![stream].drop_last()) =~= Seq::<StreamInfo>::empty());
    assert(supported(seq![stream]) =~= Seq::<StreamInfo>::empty());
    assert(streams_of(programs) =~= Seq::<StreamInfo>::empty());
}

/// A section packet gives its section to an assembler, and leaves nothing over.
proof fn lemma_section_arrives(pid: u16, section: Seq<u8>)
    requires
        pid < 8192,
        7 <= section.len() <= 180,
        section[0] != 0xFF,
        declared_len(section) == section.len(),
    ensures
        ({
            let p = section_packet(pid, true, section);
            &&& pid_of(p) == pid
            &&& starts_unit(p)
            &&& payload_of(p) matches Some(payload) && pushed(Seq::empty(), true, payload) == (Cut {
                sections: seq![section],
                rest: Seq::empty(),
                invalid: None,
            })
        }),
{
    let p = section_packet(pid, true, section);
    let fill = stuffing(183 - section.len());
    let payload = p.skip(4);
    law_section_packet_is_packet(pid, true, section);
    assert(p[3] == 0x10);
    assert(payload[0] == 0);
    let fed = payload.skip(1);
    assert(fed =~= section + fill);
    let total = declared_len(section);
    assert(declared_len(fed) == total);
    assert(fed.take(total) =~= section);
    assert(fed.skip(total) =~= fill);
    assert(fill[0] == 0xFF);
    assert(cut_sections(fill).sections =~= Seq::<Seq<u8>>::empty());
    assert(seq![section] + Seq::<Seq<u8>>::empty() =~= seq![section]);
}

} // verus!
