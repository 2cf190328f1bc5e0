use tsbox::analysis::analyze;
use tsbox::custom_ts::Part;
use tsbox::custom_ts::TsboxError;
use tsbox::demux::demux_raw;
use tsbox::error::DemuxError;
use tsbox::inputs::ExtractMode;
use tsbox::inputs::InputError;
use tsbox::inputs::InputKind;
use tsbox::media::RemuxError;
use tsbox::packet::TsPacket;
use tsbox::paths::FilePath;
use tsbox::paths::OutputPath;
use tsbox::paths::PathError;
use tsbox::pes::StreamWriter;
use tsbox::plan::plan_output_paths;
use tsbox::plan::plan_raw_outputs;
use tsbox::preflight::plan_extract;
use tsbox::preflight::planned_extract_outputs;
use tsbox::preflight::ExtractPlan;
use tsbox::preflight::OutputRequest;
use tsbox::preflight::TaskError;
use tsbox::psi::StreamInfo;
use tsbox::psi::StreamKind;
use tsbox::sync::detect_layout;
use tsbox::sync::sync_chain_at;
use tsbox::sync::PacketReader;
use tsbox::text::append_decimal;
use tsbox::text::append_hex4;
use tsbox::text::comes_before;
use tsbox::ts_reader::StreamEnd;

fn file(name: &str) -> FilePath {
    FilePath {
        text: name.as_bytes().to_vec(),
        parent: Some(Vec::new()),
        name: Some(name.as_bytes().to_vec()),
    }
}

/// A packet with a full payload, or one padded to its end by an adaptation
/// field.
fn packet(pid: u16, starts: bool, counter: u8, payload: &[u8]) -> Vec<u8> {
    let mut bytes = vec![0x47, (pid >> 8) as u8 | if starts { 0x40 } else { 0 }, pid as u8];
    if payload.len() == 184 {
        bytes.push(0x10 | counter);
    } else {
        bytes.push(0x30 | counter);
        let fill = 183 - payload.len();
        bytes.push(fill as u8);
        bytes.extend_from_slice(&vec![0u8; fill]);
    }
    bytes.extend_from_slice(payload);
    assert_eq!(bytes.len(), 188);
    bytes
}

fn section_packet(pid: u16, section: &[u8]) -> Vec<u8> {
    let mut payload = vec![0u8];
    payload.extend_from_slice(section);
    payload.resize(184, 0xFF);
    packet(pid, true, 0, &payload)
}

fn pat(programs: &[(u16, u16)]) -> Vec<u8> {
    let len = 9 + programs.len() * 4;
    let mut section = vec![0x00, 0xB0, len as u8, 0, 1, 0xC1, 0, 0];
    for (program, pid) in programs {
        section.extend_from_slice(&program.to_be_bytes());
        section.extend_from_slice(&(pid | 0xE000).to_be_bytes());
    }
    section.extend_from_slice(&[0; 4]);
    section_packet(0, &section)
}

fn pmt(pmt_pid: u16, program: u16, streams: &[(u8, u16)]) -> Vec<u8> {
    let len = 13 + streams.len() * 5;
    let mut section = vec![0x02, 0xB0, len as u8];
    section.extend_from_slice(&program.to_be_bytes());
    section.extend_from_slice(&[0xC1, 0, 0, 0xE1, 0x00, 0xF0, 0x00]);
    for (kind, pid) in streams {
        section.push(*kind);
        section.extend_from_slice(&(pid | 0xE000).to_be_bytes());
        section.extend_from_slice(&[0xF0, 0x00]);
    }
    section.extend_from_slice(&[0; 4]);
    section_packet(pmt_pid, &section)
}

fn pes(declared: u16, stuffing: u8, payload: &[u8]) -> Vec<u8> {
    let mut bytes = vec![0, 0, 1, 0xE0];
    bytes.extend_from_slice(&declared.to_be_bytes());
    bytes.extend_from_slice(&[0x80, 0x00, stuffing]);
    bytes.extend_from_slice(&vec![0xEE; stuffing as usize]);
    bytes.extend_from_slice(payload);
    bytes
}

fn video(packets: &[Vec<u8>]) -> Vec<u8> {
    let mut data = pat(&[(1, 0x1000)]);
    data.extend_from_slice(&pmt(0x1000, 1, &[(0x1B, 0x0100)]));
    for packet in packets {
        data.extend_from_slice(packet);
    }
    data
}

fn demux(packets: &[Vec<u8>]) -> Result<Vec<u8>, DemuxError> {
    let mut outputs = demux_raw(&video(packets), &file("v.ts"), b"o")?;
    assert_eq!(outputs.len(), 1);
    let output = outputs.remove(0);
    assert_eq!(output.path, OutputPath::InDir(b"o".to_vec(), b"v.h264".to_vec()));
    Ok(output.bytes)
}

#[test]
fn header_fields() {
    let bytes = packet(0x1ABC, true, 9, b"pay");
    let parsed = TsPacket::parse(&bytes);
    assert_eq!(parsed.pid, 0x1ABC);
    assert!(parsed.payload_unit_start);
    assert!(!parsed.transport_error);
    assert_eq!(parsed.continuity_counter, 9);
    assert_eq!(parsed.payload(), Some(&b"pay"[..]));
    let mut none = bytes.clone();
    none[3] = 0x29;
    assert_eq!(TsPacket::parse(&none).payload(), None);
    none[3] = 0x39;
    none[4] = 184;
    assert_eq!(TsPacket::parse(&none).payload(), None);
    none[4] = 183;
    assert_eq!(TsPacket::parse(&none).payload(), Some(&[][..]));
    none[1] |= 0x80;
    assert!(TsPacket::parse(&none).transport_error);
}

#[test]
fn chains() {
    let mut data = vec![0u8; 600];
    data[7] = 0x47;
    data[195] = 0x47;
    assert!(sync_chain_at(&data, 7, 188, 0, 2));
    assert!(!sync_chain_at(&data, 7, 188, 0, 3));
    assert!(sync_chain_at(&data, 3, 188, 4, 2));
    assert!(!sync_chain_at(&data, 8, 188, 0, 1));
    assert!(sync_chain_at(&data, 600, 188, 0, 0));
    assert!(!sync_chain_at(&data, 600, 188, 0, 1));
    assert!(!sync_chain_at(&data, 601, 188, 0, 1));
    assert!(!sync_chain_at(&data, usize::MAX, 188, 4, 2));
    assert!(sync_chain_at(&data, usize::MAX, 188, 0, 0));
}

#[test]
fn layouts() {
    assert_eq!(detect_layout(&[]), Err(DemuxError::EmptyInput));
    assert_eq!(detect_layout(&[0x47; 100]), Err(DemuxError::UnrecognizedLayout));
    let mut data = vec![0u8; 11];
    for i in 0..3u8 {
        data.extend_from_slice(&packet(0x100, false, i, b"x"));
    }
    assert_eq!(detect_layout(&data), Ok((188, 0, 11)));
    assert_eq!(detect_layout(&data[11..]), Ok((188, 0, 0)));
    let mut stamped = Vec::new();
    for i in 0..3u8 {
        stamped.extend_from_slice(&[1, 2, 3, 4]);
        stamped.extend_from_slice(&packet(0x100, false, i, b"x"));
    }
    assert_eq!(detect_layout(&stamped), Ok((192, 4, 0)));
    assert_eq!(detect_layout(&stamped[..389]), Ok((192, 4, 0)));
    assert_eq!(detect_layout(&stamped[..388]), Err(DemuxError::UnrecognizedLayout));
}

#[test]
fn layout_is_judged_by_the_first_mebibyte() {
    let mut data = vec![0u8; 1024 * 1024 - 376];
    for i in 0..4u8 {
        data.extend_from_slice(&packet(0x100, false, i, b"x"));
    }
    assert_eq!(detect_layout(&data), Err(DemuxError::UnrecognizedLayout));
    assert_eq!(detect_layout(&data[1..]), Ok((188, 0, 1024 * 1024 - 377)));
}

#[test]
fn reading_goes_on_behind_damage() {
    let mut data = Vec::new();
    for i in 0..4u8 {
        data.extend_from_slice(&packet(0x100 + i as u16, false, 0, b"x"));
    }
    data.extend_from_slice(b"damage");
    for i in 4..6u8 {
        data.extend_from_slice(&packet(0x100 + i as u16, false, 0, b"x"));
    }
    data.extend_from_slice(&[0u8; 100]);
    let mut reader = PacketReader::open(&data).unwrap();
    assert_eq!((reader.packet_size, reader.sync_offset, reader.pos), (188, 0, 0));
    let mut pids = Vec::new();
    let mut ends = Vec::new();
    while let Some(packet) = reader.next_packet() {
        pids.push(packet.pid);
        ends.push(reader.pos);
    }
    assert_eq!(pids, vec![0x100, 0x101, 0x102, 0x103, 0x104, 0x105]);
    assert_eq!(ends, vec![188, 376, 564, 752, 946, 1134]);
    assert!(reader.next_packet().is_none());
    assert_eq!(reader.pos, 1134);
    assert!(reader.resync_from(1));
    assert_eq!(reader.pos, 188);
}

#[test]
fn damage_without_a_later_chain_ends_reading() {
    let mut data = Vec::new();
    for i in 0..3u8 {
        data.extend_from_slice(&packet(0x100 + i as u16, false, 0, b"x"));
    }
    data.extend_from_slice(b"damage");
    data.extend_from_slice(&packet(0x104, false, 0, b"x"));
    data.extend_from_slice(&[0u8; 100]);
    let mut reader = PacketReader::open(&data).unwrap();
    let mut count = 0;
    while reader.next_packet().is_some() {
        count += 1;
    }
    assert_eq!(count, 3);
}

#[test]
fn one_pes_packet() {
    assert_eq!(demux(&[packet(0x100, true, 0, &pes(0, 0, b"bytes"))]), Ok(b"bytes".to_vec()));
    assert_eq!(demux(&[packet(0x100, true, 0, &pes(0, 7, b"bytes"))]), Ok(b"bytes".to_vec()));
}

#[test]
fn declared_length_limits_the_payload() {
    let unit = packet(0x100, true, 0, &pes(3 + 4, 0, b"bytes"));
    assert_eq!(demux(&[unit]), Ok(b"byte".to_vec()));
    let begun = packet(0x100, true, 0, &pes(3 + 8, 0, b"bytes"));
    let rest = packet(0x100, false, 1, b"1234");
    assert_eq!(demux(&[begun, rest]), Ok(b"bytes123".to_vec()));
}

#[test]
fn pes_cuts_do_not_matter() {
    let whole = pes(0, 5, b"elementary");
    for cut in 1..whole.len() {
        let first = packet(0x100, true, 15, &whole[..cut]);
        let second = packet(0x100, false, 0, &whole[cut..]);
        assert_eq!(demux(&[first, second]), Ok(b"elementary".to_vec()));
    }
}

#[test]
fn what_precedes_the_first_pes_packet_is_dropped() {
    let early = packet(0x100, false, 3, b"early");
    let unit = packet(0x100, true, 4, &pes(0, 0, b"late"));
    assert_eq!(demux(&[early, unit]), Ok(b"late".to_vec()));
}

#[test]
fn duplicates_are_skipped() {
    let unit = packet(0x100, true, 4, &pes(0, 0, b"once"));
    assert_eq!(demux(&[unit.clone(), unit.clone(), unit]), Ok(b"once".to_vec()));
}

#[test]
fn damaged_streams_are_refused() {
    let good = packet(0x100, true, 4, &pes(0, 0, b"x"));
    let gap = packet(0x100, false, 6, b"x");
    assert_eq!(
        demux(&[good.clone(), gap]),
        Err(DemuxError::ContinuityMismatch(0x100, 5, 6))
    );
    let mut marked = packet(0x100, false, 5, b"x");
    marked[1] |= 0x80;
    assert_eq!(demux(&[good.clone(), marked]), Err(DemuxError::TransportError(0x100)));
    let code = packet(0x100, true, 0, b"\x00\x00\x02456789");
    assert_eq!(demux(&[code]), Err(DemuxError::PesStartCode));
    let short = packet(0x100, true, 0, &pes(2, 0, b"x"));
    assert_eq!(demux(&[short]), Err(DemuxError::PesLength));
    let open = packet(0x100, true, 0, &pes(3 + 9, 0, b"x"));
    let next = packet(0x100, true, 1, &pes(0, 0, b"x"));
    assert_eq!(demux(&[open, next]), Err(DemuxError::UnfinishedPes));
    let partial = packet(0x100, true, 0, &pes(0, 0, b"")[..8]);
    let next = packet(0x100, true, 1, &pes(0, 0, b"x"));
    assert_eq!(demux(&[partial, next.clone()]), Err(DemuxError::UnfinishedPesHeader));
    let stuffed = packet(0x100, true, 0, &pes(0, 9, b"")[..12]);
    assert_eq!(demux(&[stuffed, next]), Err(DemuxError::UnfinishedPesHeader));
    let cut = packet(0x100, true, 0, &pes(0, 0, b"")[..8]);
    assert_eq!(demux(&[cut]), Err(DemuxError::IncompletePesHeader(0x100)));
    let empty = packet(0x100, true, 0, &pes(0, 0, b""));
    assert_eq!(demux(&[empty]), Err(DemuxError::EmptyStream(0x100)));
}

#[test]
fn packets_of_other_streams_do_not_matter() {
    let mut stray = packet(0x200, true, 9, b"stray");
    stray[1] |= 0x80;
    let a = packet(0x100, true, 4, &pes(0, 0, b"ab"));
    let b = packet(0x100, false, 5, b"cd");
    assert_eq!(demux(&[a, stray, b]), Ok(b"abcd".to_vec()));
}

#[test]
fn stream_writer_states() {
    let mut writer = StreamWriter::new();
    assert_eq!(writer.start_pes(b"\x00\x00\x01"), Ok(()));
    assert_eq!(writer.start_pes(&pes(0, 0, b"a")), Err(DemuxError::UnfinishedPesHeader));
    assert_eq!(writer.header_buffer, b"\x00\x00\x01");
    assert!(writer.awaiting_pes_header);

    let mut writer = StreamWriter::new();
    assert_eq!(writer.continue_pes(b"early"), Ok(()));
    assert!(writer.output.is_empty());
    assert_eq!(writer.start_pes(&pes(3 + 2, 0, b"a")), Ok(()));
    assert_eq!(writer.pes_remaining, Some(1));
    assert_eq!(writer.continue_pes(b"bc"), Ok(()));
    assert_eq!(writer.output, b"ab");
    assert_eq!(writer.pes_remaining, Some(0));
    let bytes = packet(0x100, false, 7, b"x");
    let parsed = TsPacket::parse(&bytes);
    assert_eq!(writer.accept_packet(&parsed), Ok(true));
    assert_eq!(writer.accept_packet(&parsed), Ok(false));
}

#[test]
fn programs_in_ascending_order() {
    let mut data = pat(&[(2, 0x1002), (1, 0x1001)]);
    data.extend_from_slice(&pmt(0x1002, 2, &[(0x24, 0x0120)]));
    data.extend_from_slice(&pmt(0x1001, 1, &[(0x1B, 0x0100), (0x05, 0x0102), (0x0F, 0x0101)]));
    let info = |program_number, pid, kind| StreamInfo { program_number, pid, kind: Some(kind) };
    assert_eq!(
        analyze(&data),
        Ok(vec![
            info(1, 0x0100, StreamKind::H264),
            info(1, 0x0101, StreamKind::Aac),
            info(2, 0x0120, StreamKind::H265),
        ])
    );
    let names = [&b"video_p1_pid0100.h264"[..], b"video_p1_pid0101.aac", b"video_p2_pid0120.h265"];
    let paths = plan_raw_outputs(&data, &file("video.ts"), b"raw").unwrap();
    assert_eq!(paths.len(), names.len());
    for (path, name) in paths.iter().zip(names) {
        assert_eq!(*path, OutputPath::InDir(b"raw".to_vec(), name.to_vec()));
    }
}

#[test]
fn a_later_table_replaces_an_earlier_one() {
    let mut data = pat(&[(1, 0x1000)]);
    data.extend_from_slice(&pmt(0x1000, 1, &[(0x1B, 0x0100)]));
    data.extend_from_slice(&pmt(0x1000, 1, &[(0x0F, 0x0101)]));
    let streams = analyze(&data).unwrap();
    assert_eq!(streams.len(), 1);
    assert_eq!(streams[0].pid, 0x0101);
}

#[test]
fn analysis_errors() {
    assert_eq!(analyze(&[]), Err(DemuxError::EmptyInput));
    assert_eq!(analyze(b"junk"), Err(DemuxError::UnrecognizedLayout));
    let mut none = pat(&[(1, 0x1000)]);
    none.extend_from_slice(&pmt(0x1000, 1, &[(0x05, 0x0100)]));
    none.extend_from_slice(&packet(0x0100, false, 0, b"x"));
    assert_eq!(analyze(&none), Err(DemuxError::NoSupportedStreams));
    let mut bad = video(&[packet(0x100, false, 0, b"x")]);
    bad[7] = 2;
    bad[6] = 0xB0;
    assert_eq!(analyze(&bad), Err(DemuxError::SectionLength(2)));
}

#[test]
fn output_names() {
    let info = |program_number, pid, kind| StreamInfo { program_number, pid, kind: Some(kind) };
    let one = plan_output_paths(b"clip", &[info(1, 0x100, StreamKind::Ac3)]).unwrap();
    assert_eq!(one.len(), 1);
    assert_eq!(one[0].pid, 0x100);
    assert_eq!(one[0].name, b"clip.ac3");

    let twice = [info(1, 0x100, StreamKind::Ac3), info(1, 0x100, StreamKind::Ac3)];
    let error = plan_output_paths(b"clip", &twice).map(|t| t.len());
    assert_eq!(error, Err(DemuxError::NameCollision(0x100, 0x100)));

    let shared = [
        info(1, 0x100, StreamKind::H264),
        info(65535, 0x1FFF, StreamKind::Lpcm),
        info(10, 0x100, StreamKind::H264),
    ];
    let targets = plan_output_paths(b"clip", &shared).unwrap();
    assert_eq!(targets.len(), 2);
    assert_eq!(targets[0].name, b"clip_p10_pid0100.h264");
    assert_eq!(targets[1].name, b"clip_p65535_pid1fff.lpcm");
}

#[test]
fn names_that_are_not_text() {
    let data = video(&[packet(0x100, true, 0, &pes(0, 0, b"x"))]);
    let mut input = file("v.ts");
    input.name = Some(b"\xFF.ts".to_vec());
    assert_eq!(plan_raw_outputs(&data, &input, b"o"), Err(DemuxError::InputNameNotUtf8));
    input.name = None;
    assert_eq!(plan_raw_outputs(&data, &input, b"o"), Err(DemuxError::InputNameNotUtf8));
    input.name = Some("ö.ts".as_bytes().to_vec());
    let paths = plan_raw_outputs(&data, &input, b"o").unwrap();
    assert_eq!(paths, vec![OutputPath::InDir(b"o".to_vec(), "ö.h264".as_bytes().to_vec())]);
}

#[test]
fn foreseen_outputs() {
    let data = video(&[packet(0x100, true, 0, &pes(0, 0, b"x"))]);
    let request = OutputRequest {
        output: None,
        output_is_dir: false,
        batch: false,
        backslash_separates: false,
    };
    let within = |name: &str| OutputPath::InDir(Vec::new(), name.as_bytes().to_vec());
    let plan = |mode| planned_extract_outputs(&data, &file("v.ts"), &request, mode);
    assert_eq!(plan(ExtractMode::Raw), Ok(vec![within("v.h264")]));
    assert_eq!(plan(ExtractMode::Mp4 { fallback_raw: false }), Ok(vec![within("v.mp4")]));
    assert_eq!(
        plan(ExtractMode::Mp4 { fallback_raw: true }),
        Ok(vec![within("v.mp4"), within("v.h264")])
    );
    assert_eq!(
        planned_extract_outputs(b"x", &file("v.ts"), &request, ExtractMode::Raw),
        Err(TaskError::Tsbox(TsboxError::UnrecognizedLayout))
    );
    let silent = video(&[packet(0x1FFF, false, 0, b"x")]);
    let mut none = silent.clone();
    none[188 + 17] = 0x05;
    assert_eq!(
        planned_extract_outputs(&none, &file("v.ts"), &request, ExtractMode::Raw),
        Err(TaskError::Demux(DemuxError::NoSupportedStreams))
    );
    let unnamed = FilePath { text: b"..".to_vec(), parent: None, name: None };
    let mode = ExtractMode::Mp4 { fallback_raw: false };
    assert_eq!(
        planned_extract_outputs(&data, &unnamed, &request, mode),
        Err(TaskError::Path(PathError::NoFileName))
    );
}

#[test]
fn names_that_would_be_paths() {
    let packed = tsbox::custom_ts::pack_file(r"a.b\c", 1, b"x").unwrap();
    let request = |backslash_separates| OutputRequest {
        output: None,
        output_is_dir: false,
        batch: false,
        backslash_separates,
    };
    let mode = ExtractMode::Mp4 { fallback_raw: false };
    assert_eq!(
        planned_extract_outputs(&packed, &file("v.ts"), &request(false), mode),
        Ok(vec![OutputPath::InDir(Vec::new(), br"v.b\c".to_vec())])
    );
    assert_eq!(
        planned_extract_outputs(&packed, &file("v.ts"), &request(true), mode),
        Err(TaskError::Tsbox(TsboxError::NotBasename))
    );
    assert!(matches!(
        plan_extract(&packed, &file("v.ts"), &request(true), mode),
        Err(TaskError::Tsbox(TsboxError::NotBasename))
    ));

    let raw = ExtractMode::Raw;
    assert!(matches!(
        plan_extract(&packed, &file("v.ts"), &request(false), raw),
        Ok(ExtractPlan::Container(_))
    ));
    let inside = FilePath { parent: Some(b"d".to_vec()), ..file("v.ts") };
    match plan_extract(&packed, &inside, &request(true), raw) {
        Ok(ExtractPlan::Raw(dir)) => assert_eq!(dir, b"d"),
        _ => unreachable!(),
    }
    assert_eq!(
        planned_extract_outputs(&packed, &file("v.ts"), &request(true), raw),
        Err(TaskError::Tsbox(TsboxError::NotBasename))
    );
}

#[test]
fn numbers_and_order() {
    let mut out = Vec::new();
    append_decimal(&mut out, 0);
    append_decimal(&mut out, 10203);
    append_decimal(&mut out, u64::MAX);
    assert_eq!(out, b"01020318446744073709551615");
    let mut out = Vec::new();
    append_hex4(&mut out, 0x0aF9);
    assert_eq!(out, b"0af9");
    assert!(comes_before(b"a", b"b"));
    assert!(comes_before(b"a", b"aa"));
    assert!(comes_before(b"", b"a"));
    assert!(!comes_before(b"a", b"a"));
    assert!(!comes_before(b"b", b"aa"));
    assert!(comes_before(b"z", b"\xFF"));
}

#[test]
fn messages() {
    let say = |bytes: Vec<u8>| String::from_utf8(bytes).unwrap();
    let tsbox = [
        (TsboxError::EmptyInput, "empty TS input"),
        (TsboxError::UnsupportedVersion(7), "unsupported TSBOX version: 7"),
        (TsboxError::NameLength(4097), "invalid TSBOX file name length: 4097"),
        (TsboxError::NameNotUtf8, "TSBOX file name is not valid UTF-8"),
        (TsboxError::NotBasename, "TSBOX file name must be a basename"),
        (TsboxError::NotTsbox, "not a TSBOX file"),
        (TsboxError::InvalidTrailer, "invalid TSBOX trailer"),
        (TsboxError::NameTooLong, "file name is too long"),
        (
            TsboxError::Truncated(Part::Header, StreamEnd::LostSync),
            "failed to read TSBOX header: lost MPEG-TS sync byte",
        ),
        (
            TsboxError::Truncated(Part::Name, StreamEnd::InvalidAdaptation),
            "failed to read TSBOX file name: invalid TS adaptation field length",
        ),
        (
            TsboxError::Truncated(Part::Content, StreamEnd::Eof),
            "TSBOX payload ended before file content was complete: failed to fill whole buffer",
        ),
        (
            TsboxError::Truncated(Part::Trailer, StreamEnd::Eof),
            "TSBOX payload ended before checksum trailer: failed to fill whole buffer",
        ),
    ];
    for (error, text) in tsbox {
        assert_eq!(say(error.message()), text);
    }
    let demux = [
        (DemuxError::EmptyInput, "empty input"),
        (DemuxError::SectionLength(3), "invalid PSI section length: 3"),
        (DemuxError::PatLength, "invalid PAT section length"),
        (DemuxError::PmtLength, "invalid PMT section length"),
        (DemuxError::PmtDescriptorLength, "invalid PMT ES descriptor length"),
        (DemuxError::NoSupportedStreams, "no supported elementary streams found"),
        (
            DemuxError::NameCollision(0x100, 0x1FFF),
            "output name collision for PIDs 0x0100 and 0x1fff",
        ),
        (
            DemuxError::UnfinishedPes,
            "new PES packet started before previous PES declared length was complete",
        ),
        (
            DemuxError::UnfinishedPesHeader,
            "new PES packet started before previous PES header was complete",
        ),
        (DemuxError::PesStartCode, "invalid PES start code"),
        (DemuxError::PesLength, "invalid PES packet length"),
        (DemuxError::InputNameNotUtf8, "input file name is not valid UTF-8"),
        (
            DemuxError::IncompletePesHeader(0x100),
            "PID 0x0100 ended before a complete PES header",
        ),
        (
            DemuxError::EmptyStream(0x100),
            "PID 0x0100 produced no elementary stream payload; refusing empty output",
        ),
    ];
    for (error, text) in demux {
        assert_eq!(say(error.message()), text);
        assert_eq!(say(TaskError::Demux(error).message()), text);
    }
    assert_eq!(say(PathError::NoFileName.message()), "path has no file name");
    assert_eq!(say(PathError::TempExists.message()), "temporary output already exists");
    assert_eq!(say(PathError::Collision(0, 1).message()), "output filename collision");
    assert_eq!(
        say(TaskError::Path(PathError::WouldOverwriteInput).message()),
        "output path would overwrite input"
    );
    assert_eq!(say(RemuxError::Failed.message()), "ffmpeg remux failed");
    assert_eq!(say(RemuxError::NoOutput.message()), "ffmpeg did not create output");
    assert_eq!(say(RemuxError::EmptyOutput.message()), "ffmpeg produced an empty output");
    assert!(say(RemuxError::NotStarted.message()).starts_with("failed to start ffmpeg"));
    assert_eq!(
        say(InputError::NothingFound(InputKind::Pack).message()),
        "no files found to pack"
    );
    assert_eq!(
        say(InputError::NothingFound(InputKind::Extract).message()),
        "no .ts files found to extract"
    );
    assert_eq!(
        say(InputError::NotFileOrDirectory.message()),
        "input is neither a file nor a directory"
    );
}
