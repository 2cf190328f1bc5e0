use tsbox::crc::mpeg_crc32;
use tsbox::error::DemuxError;
use tsbox::psi::infer_private_stream_kind;
use tsbox::psi::parse_pat;
use tsbox::psi::parse_pmt;
use tsbox::psi::pmt_program_number;
use tsbox::psi::SectionAssembler;
use tsbox::psi::StreamInfo;
use tsbox::psi::StreamKind;
use tsbox::ts_writer::pat_section;
use tsbox::ts_writer::pmt_section;

#[test]
fn pat_crc_known_vector_is_stable() {
    let section = pat_section();
    assert_eq!(section.len(), 16);
    assert_eq!(&section[12..], &mpeg_crc32(&section[..12]).to_be_bytes());
}

#[test]
fn parses_pat_with_multiple_programs() {
    let section = vec![
        0x00, 0xB0, 0x11, 0x00, 0x01, 0xC1, 0x00, 0x00, 0x00, 0x01, 0xE1, 0x00, 0x00, 0x02, 0xE1,
        0x01, 0, 0, 0, 0,
    ];
    let programs = parse_pat(&section).unwrap();
    assert_eq!(programs, vec![(1, 0x0100), (2, 0x0101)]);
}

#[test]
fn parses_supported_pmt_streams() {
    let section = vec![
        0x02, 0xB0, 0x17, 0x00, 0x01, 0xC1, 0x00, 0x00, 0xE1, 0x00, 0xF0, 0x00, 0x1B, 0xE1, 0x00,
        0xF0, 0x00, 0x0F, 0xE1, 0x01, 0xF0, 0x00, 0, 0, 0, 0,
    ];
    let streams = parse_pmt(1, &section).unwrap();
    assert_eq!(streams.len(), 2);
    assert_eq!(streams[0].pid, 0x0100);
    assert_eq!(streams[0].kind, Some(StreamKind::H264));
    assert_eq!(streams[1].pid, 0x0101);
    assert_eq!(streams[1].kind, Some(StreamKind::Aac));
}

#[test]
fn crc_of_the_standard_check_string() {
    assert_eq!(mpeg_crc32(b"123456789"), 0x0376E6E7);
    assert_eq!(mpeg_crc32(b""), 0xFFFFFFFF);
}

#[test]
fn sealed_tables_have_crc_zero() {
    assert_eq!(mpeg_crc32(&pat_section()), 0);
    assert_eq!(mpeg_crc32(&pmt_section()), 0);
    assert_eq!(pmt_section().len(), 21);
}

#[test]
fn own_tables_announce_the_data() {
    assert_eq!(parse_pat(&pat_section()), Ok(vec![(1, 0x1000)]));
    let stream = StreamInfo { program_number: 1, pid: 0x0100, kind: None };
    assert_eq!(parse_pmt(1, &pmt_section()), Ok(vec![stream]));
}

#[test]
fn pat_entries() {
    let mut section = vec![0x00, 0xB0, 0x11, 0, 1, 0xC1, 0, 0];
    section.extend_from_slice(&[0x00, 0x00, 0xFF, 0xFF, 0x12, 0x34, 0xE0, 0x42]);
    section.extend_from_slice(&[0; 4]);
    assert_eq!(parse_pat(&section), Ok(vec![(0x1234, 0x0042)]));
    section[2] = 0x12;
    assert_eq!(parse_pat(&section), Err(DemuxError::PatLength));
    section[2] = 0x08;
    assert_eq!(parse_pat(&section), Err(DemuxError::PatLength));
    section[0] = 0x02;
    assert_eq!(parse_pat(&section), Ok(vec![]));
    assert_eq!(parse_pat(&[0; 11]), Ok(vec![]));
}

#[test]
fn pmt_errors() {
    let mut section = vec![
        0x02, 0xB0, 0x12, 0x00, 0x07, 0xC1, 0x00, 0x00, 0xE1, 0x00, 0xF0, 0x00, 0x1B, 0xE1, 0x00,
        0xF0, 0x00, 0, 0, 0, 0,
    ];
    assert_eq!(parse_pmt(7, &section).unwrap().len(), 1);
    assert_eq!(pmt_program_number(&section), Some(7));
    section[16] = 1;
    assert_eq!(parse_pmt(7, &section), Err(DemuxError::PmtDescriptorLength));
    section[2] = 0x13;
    assert_eq!(parse_pmt(7, &section), Err(DemuxError::PmtLength));
    section[0] = 0;
    assert_eq!(parse_pmt(7, &section), Ok(vec![]));
    assert_eq!(pmt_program_number(&section), None);
}

#[test]
fn stream_kinds() {
    let kind = |t: u8| StreamKind::from_stream_type(t, &[]);
    assert_eq!(kind(0x01), Some(StreamKind::Mpeg1Video));
    assert_eq!(kind(0x02), Some(StreamKind::Mpeg2Video));
    assert_eq!(kind(0x03), Some(StreamKind::Mp3));
    assert_eq!(kind(0x04), Some(StreamKind::Mp3));
    assert_eq!(kind(0x0F), Some(StreamKind::Aac));
    assert_eq!(kind(0x1B), Some(StreamKind::H264));
    assert_eq!(kind(0x24), Some(StreamKind::H265));
    assert_eq!(kind(0x80), Some(StreamKind::Lpcm));
    assert_eq!(kind(0x81), Some(StreamKind::Ac3));
    assert_eq!(kind(0x87), Some(StreamKind::EAc3));
    assert_eq!(kind(0x06), None);
    assert_eq!(kind(0x99), None);
    assert_eq!(StreamKind::from_stream_type(0x99, &[0x56, 0]), Some(StreamKind::Teletext));
    assert_eq!(StreamKind::from_stream_type(0x1B, &[0x56, 0]), Some(StreamKind::H264));
}

#[test]
fn private_kinds() {
    assert_eq!(infer_private_stream_kind(&[0x59, 0]), Some(StreamKind::DvbSubtitle));
    assert_eq!(infer_private_stream_kind(&[0x0A, 2, 0x56, 0, 0x6A, 0]), Some(StreamKind::Ac3));
    assert_eq!(infer_private_stream_kind(&[0x7A, 1, 9]), Some(StreamKind::EAc3));
    assert_eq!(infer_private_stream_kind(&[0x7A, 2, 9]), None);
    assert_eq!(infer_private_stream_kind(&[0x7A]), None);
}

#[test]
fn extensions() {
    let all = [
        (StreamKind::Mpeg1Video, "m2v"),
        (StreamKind::Mpeg2Video, "m2v"),
        (StreamKind::H264, "h264"),
        (StreamKind::H265, "h265"),
        (StreamKind::Aac, "aac"),
        (StreamKind::Mp3, "mp3"),
        (StreamKind::Ac3, "ac3"),
        (StreamKind::EAc3, "eac3"),
        (StreamKind::DvbSubtitle, "dvbsub"),
        (StreamKind::Teletext, "teletext"),
        (StreamKind::Lpcm, "lpcm"),
    ];
    for (kind, extension) in all {
        assert_eq!(kind.extension(), extension);
    }
}

#[test]
fn sections_in_pieces() {
    let section = pat_section();
    let mut whole = vec![0u8];
    whole.extend_from_slice(&section);
    let mut assembler = SectionAssembler::new();
    assert_eq!(assembler.push(true, &whole), Ok(vec![section.clone()]));
    for cut in 1..whole.len() {
        let mut assembler = SectionAssembler::new();
        assert_eq!(assembler.push(true, &whole[..cut]), Ok(vec![]));
        assert_eq!(assembler.push(false, &whole[cut..]), Ok(vec![section.clone()]));
    }
}

#[test]
fn section_edge_cases() {
    let section = pat_section();
    let mut assembler = SectionAssembler::new();
    assert_eq!(assembler.push(true, &[]), Ok(vec![]));
    assert_eq!(assembler.push(true, &[5, 0, 0]), Ok(vec![]));
    let mut behind = vec![2, 0xAA, 0xBB];
    behind.extend_from_slice(&section);
    behind.extend_from_slice(&section);
    behind.extend_from_slice(&[0xFF; 5]);
    assert_eq!(assembler.push(true, &behind), Ok(vec![section.clone(), section.clone()]));
    assert!(assembler.buffer.is_empty());
    let short = [0, 0x00, 0xB0, 0x03, 0];
    assert_eq!(assembler.push(true, &short), Err(DemuxError::SectionLength(3)));
    let long = [0, 0x00, 0xBF, 0xFE, 0];
    assert_eq!(assembler.push(true, &long), Err(DemuxError::SectionLength(4094)));
    assert!(assembler.buffer.is_empty());
}
