use tsbox::custom_ts::check_trailer;
use tsbox::custom_ts::detect_packet_size;
use tsbox::custom_ts::extract_file;
use tsbox::custom_ts::pack_file;
use tsbox::custom_ts::pack_with_digest;
use tsbox::custom_ts::probe;
use tsbox::custom_ts::read_metadata;
use tsbox::custom_ts::unpack;
use tsbox::custom_ts::Metadata;
use tsbox::custom_ts::Part;
use tsbox::custom_ts::TsboxError;
use tsbox::ts_reader::StreamEnd;
use tsbox::ts_reader::TsPayloadReader;
use tsbox::ts_writer::TsDataWriter;
use tsbox::ts_writer::WriteError;

fn text(bytes: Vec<u8>) -> String {
    String::from_utf8(bytes).unwrap()
}

/// A stream of two tables and these data, each written on its own.
fn stream(parts: &[&[u8]]) -> Vec<u8> {
    let mut writer = TsDataWriter::new();
    for part in parts {
        writer.write_data(part);
    }
    writer.finish()
}

fn header(version: u8, name: &[u8], size: u64) -> Vec<u8> {
    let mut bytes = b"TSBOX1\0".to_vec();
    bytes.push(version);
    bytes.extend_from_slice(&(name.len() as u16).to_be_bytes());
    bytes.extend_from_slice(&size.to_be_bytes());
    bytes.extend_from_slice(name);
    bytes
}

#[test]
fn packet_size_detection_rejects_random_data() {
    let err = detect_packet_size(b"not ts").unwrap_err();
    assert_eq!(err, TsboxError::UnrecognizedLayout);
    assert!(text(err.message()).contains("does not look like"));
}

#[test]
fn checksum_mismatch_is_detected() {
    let mut packed = pack_file("data.bin", 6, b"abcdef").unwrap();
    packed[188 * 3 + 182] = b'X';

    let err = extract_file(&packed).unwrap_err();
    assert_eq!(err, TsboxError::ChecksumMismatch);
    assert!(text(err.message()).contains("checksum mismatch"));
}

#[test]
fn original_extension_handles_multiple_dots() {
    let meta = Metadata { original_name: "archive.tar.gz".to_string(), size: 0 };
    assert_eq!(meta.original_extension(), Some("gz"));
}

#[test]
fn original_extension_edge_cases() {
    let extension = |name: &str| {
        let meta = Metadata { original_name: name.to_string(), size: 0 };
        meta.original_extension().map(|e| e.to_string())
    };
    assert_eq!(extension("plain"), None);
    assert_eq!(extension(".hidden"), None);
    assert_eq!(extension(".hidden.txt"), Some("txt".to_string()));
    assert_eq!(extension("dot."), Some(String::new()));
    assert_eq!(extension(".."), None);
    assert_eq!(extension("."), None);
    assert_eq!(extension("名前.データ"), Some("データ".to_string()));
}

#[test]
fn packed_bytes_are_exact() {
    let packed = pack_file("data.bin", 6, b"abcdef").unwrap();
    assert_eq!(packed.len(), 188 * 5);
    assert_eq!(
        &packed[..21],
        &[
            0x47, 0x40, 0x00, 0x10, 0x00, 0x00, 0xB0, 0x0D, 0x00, 0x01, 0xC1, 0x00, 0x00, 0x00,
            0x01, 0xF0, 0x00, 0x2A, 0xB1, 0x04, 0xB2
        ]
    );
    assert_eq!(packed[21], 0xFF);
    assert_eq!(
        &packed[188..214],
        &[
            0x47, 0x50, 0x00, 0x10, 0x00, 0x02, 0xB0, 0x12, 0x00, 0x01, 0xC1, 0x00, 0x00, 0xE1,
            0x00, 0xF0, 0x00, 0x06, 0xE1, 0x00, 0xF0, 0x00, 0xBE, 0x7F, 0xA0, 0x52
        ]
    );
    assert_eq!(&packed[376..382], &[0x47, 0x01, 0x00, 0x30, 157, 0x00]);
    assert_eq!(&packed[564 - 26..564], &header(1, b"data.bin", 6)[..]);
    assert_eq!(&packed[564..570], &[0x47, 0x01, 0x00, 0x31, 177, 0x00]);
    assert_eq!(&packed[752 - 6..752], b"abcdef");
    assert_eq!(&packed[752..758], &[0x47, 0x01, 0x00, 0x32, 143, 0x00]);
    assert_eq!(&packed[940 - 40..940 - 32], b"TSBOXEND");
    assert_eq!(
        &packed[940 - 32..],
        &[
            0xbe, 0xf5, 0x7e, 0xc7, 0xf5, 0x3a, 0x6d, 0x40, 0xbe, 0xb6, 0x40, 0xa7, 0x80, 0xa6,
            0x39, 0xc8, 0x3b, 0xc2, 0x9a, 0xc8, 0xa9, 0x81, 0x6f, 0x1f, 0xc6, 0xc5, 0xc6, 0xdc,
            0xd9, 0x3c, 0x47, 0x21
        ]
    );
}

#[test]
fn payload_lengths_around_a_full_packet() {
    for len in [1usize, 182, 183, 184, 185, 368, 369] {
        let content: Vec<u8> = (0..len).map(|i| i as u8).collect();
        let packed = pack_file("x", len as u64, &content).unwrap();
        assert_eq!(packed.len() % 188, 0);
        let (meta, back) = extract_file(&packed).unwrap();
        assert_eq!(meta, Metadata { original_name: "x".to_string(), size: len as u64 });
        assert_eq!(back, content);
    }
}

#[test]
fn packed_file_is_a_transport_stream() {
    let content = vec![7u8; 184 * 20];
    let packed = pack_file("x", content.len() as u64, &content).unwrap();
    for (i, packet) in packed.chunks(188).enumerate() {
        assert_eq!(packet.len(), 188);
        assert_eq!(packet[0], 0x47);
        let pid = (packet[1] as u16 & 0x1F) << 8 | packet[2] as u16;
        match i {
            0 => assert_eq!(pid, 0),
            1 => assert_eq!(pid, 0x1000),
            _ => {
                assert_eq!(pid, 0x0100);
                assert_eq!(packet[3] as usize & 0x0F, (i - 2) % 16);
            }
        }
    }
}

#[test]
fn utf8_names_come_back() {
    let packed = pack_file("日本語 ü.txt", 2, b"hi").unwrap();
    let meta = probe(&packed).unwrap().unwrap();
    assert_eq!(meta.original_name, "日本語 ü.txt");
    assert_eq!(meta.size, 2);
    assert_eq!(meta.original_extension(), Some("txt"));
}

#[test]
fn backslash_is_part_of_a_name() {
    let packed = pack_file(r"a\b.txt", 1, b"x").unwrap();
    let (meta, content) = extract_file(&packed).unwrap();
    assert_eq!(meta, Metadata { original_name: r"a\b.txt".to_string(), size: 1 });
    assert_eq!(content, b"x");
}

#[test]
fn reading_the_head_takes_no_more_than_it_needs() {
    let rest = |data: &[u8]| {
        let mut reader = TsPayloadReader::open(data, 188, 0x0100);
        let _ = read_metadata(&mut reader, false);
        reader.read(100).unwrap()
    };
    assert_eq!(rest(&stream(&[b"no mark at all: 18", b"rest"])), b"rest");
    assert_eq!(rest(&stream(&[&header(2, b"a", 0), b"rest"])), b"arest");
    assert_eq!(rest(&stream(&[&header(1, b"", 0), b"rest"])), b"rest");
    assert_eq!(rest(&stream(&[&header(1, b"a/b", 0), b"rest"])), b"rest");
    assert_eq!(rest(&stream(&[&header(1, b"a", 0), b"rest"])), b"rest");
}

#[test]
fn reader_stands_behind_the_packet_that_failed() {
    let mut data = stream(&[b"abc", b"def", b"ghi"]);
    data[188 * 3] = 0;
    let mut reader = TsPayloadReader::open(&data, 188, 0x0100);
    assert_eq!(reader.read(9), Err(StreamEnd::LostSync));
    assert_eq!(reader.pos, 188 * 4);
    assert!(!reader.eof);
    assert_eq!(reader.read(3), Ok(b"ghi".to_vec()));
    assert_eq!(reader.pos, 188 * 5);
    assert!(!reader.eof);
    assert_eq!(reader.load_payload(), Ok(false));
    assert!(reader.eof);
}

#[test]
fn probe_and_extract_agree() {
    let packed = pack_file("a.b", 3, b"xyz").unwrap();
    let announced = probe(&packed).unwrap().unwrap();
    let (meta, content) = extract_file(&packed).unwrap();
    assert_eq!(meta, announced);
    assert_eq!(content.len() as u64, meta.size);
}

#[test]
fn long_names_are_refused() {
    let name = "n".repeat(65536);
    assert_eq!(pack_file(&name, 0, b""), Err(TsboxError::NameTooLong));
    let name = "n".repeat(65535);
    let packed = pack_file(&name, 0, b"").unwrap();
    assert_eq!(probe(&packed), Err(TsboxError::NameLength(65535)));
    let name = "n".repeat(4096);
    let packed = pack_file(&name, 0, b"").unwrap();
    assert_eq!(extract_file(&packed).unwrap().0.original_name, name);
}

#[test]
fn reader_refuses_bad_headers() {
    let end = b"TSBOXEND".to_vec();
    assert_eq!(
        probe(&stream(&[&header(2, b"a", 0), &end])),
        Err(TsboxError::UnsupportedVersion(2))
    );
    assert_eq!(probe(&stream(&[&header(1, b"", 0), &end])), Err(TsboxError::NameLength(0)));
    assert_eq!(probe(&stream(&[&header(1, b"\xFF", 0), &end])), Err(TsboxError::NameNotUtf8));
    assert_eq!(probe(&stream(&[&header(1, b"a/b", 0), &end])), Err(TsboxError::NotBasename));
    let named = probe(&stream(&[&header(1, b"a\\b", 0), &end])).unwrap().unwrap();
    assert_eq!(named.original_name, "a\\b");
    let mut short = header(1, b"abcdefgh", 0);
    short.truncate(20);
    assert_eq!(
        probe(&stream(&[&short])),
        Err(TsboxError::Truncated(Part::Name, StreamEnd::Eof))
    );
}

#[test]
fn what_is_no_container() {
    let other = stream(&[b"some other private data", b"more"]);
    assert_eq!(probe(&other), Ok(None));
    assert_eq!(extract_file(&other), Err(TsboxError::NotTsbox));
    let short = stream(&[b"short"]);
    assert_eq!(probe(&short), Ok(None));
    assert_eq!(
        extract_file(&short),
        Err(TsboxError::Truncated(Part::Header, StreamEnd::Eof))
    );
}

#[test]
fn container_that_ends_early() {
    let data = stream(&[&header(1, b"a", 10), b"123"]);
    assert_eq!(
        extract_file(&data),
        Err(TsboxError::Truncated(Part::Content, StreamEnd::Eof))
    );
    let data = stream(&[&header(1, b"a", 3), b"123"]);
    assert_eq!(
        extract_file(&data),
        Err(TsboxError::Truncated(Part::Trailer, StreamEnd::Eof))
    );
    let data = stream(&[&header(1, b"a", 3), b"123", &[0u8; 40]]);
    assert_eq!(extract_file(&data), Err(TsboxError::InvalidTrailer));
}

#[test]
fn lost_sync_ends_a_stream() {
    let mut packed = pack_file("a", 1000, &[1u8; 1000]).unwrap();
    packed[188 * 4] = 0;
    assert_eq!(
        extract_file(&packed),
        Err(TsboxError::Truncated(Part::Content, StreamEnd::LostSync))
    );
    let mut packed = pack_file("a", 1000, &[1u8; 1000]).unwrap();
    packed[188 * 4 + 3] = 0x30;
    packed[188 * 4 + 4] = 184;
    assert_eq!(
        extract_file(&packed),
        Err(TsboxError::Truncated(Part::Content, StreamEnd::InvalidAdaptation))
    );
}

#[test]
fn packets_without_payload_are_passed_over() {
    let mut packed = pack_file("a", 3, b"xyz").unwrap();
    let mut empty = vec![0xFFu8; 188];
    empty[0] = 0x47;
    empty[1] = 0x01;
    empty[2] = 0x00;
    empty[3] = 0x20;
    packed.splice(376..376, empty.clone());
    empty[3] = 0x30;
    empty[4] = 183;
    packed.splice(376..376, empty);
    assert_eq!(extract_file(&packed).unwrap().1, b"xyz");
}

#[test]
fn size_in_the_header_decides() {
    let packed = pack_with_digest("a", 2, b"xyz", &[0u8; 32]).unwrap();
    let found = unpack(&packed).unwrap();
    assert_eq!(found.content, b"xy");
    assert_eq!(found.trailer[0], b'z');
}

#[test]
fn trailer_is_held_against_the_digest() {
    let mut trailer = b"TSBOXEND".to_vec();
    trailer.extend_from_slice(&[9u8; 32]);
    assert_eq!(check_trailer(&trailer, &[9u8; 32]), Ok(()));
    assert_eq!(check_trailer(&trailer, &[8u8; 32]), Err(TsboxError::ChecksumMismatch));
    trailer[7] = b'd';
    assert_eq!(check_trailer(&trailer, &[9u8; 32]), Err(TsboxError::InvalidTrailer));
}

#[test]
fn packet_sizes() {
    let packed = pack_file("a", 0, b"").unwrap();
    assert_eq!(detect_packet_size(&packed), Ok(188));
    assert_eq!(detect_packet_size(&[]), Err(TsboxError::EmptyInput));
    let mut m2ts = Vec::new();
    for packet in packed.chunks(188) {
        m2ts.extend_from_slice(&[0, 0, 0, 0]);
        m2ts.extend_from_slice(packet);
    }
    assert_eq!(detect_packet_size(&m2ts), Ok(192));
    assert_eq!(detect_packet_size(&m2ts[..579]), Err(TsboxError::UnrecognizedLayout));
    assert_eq!(detect_packet_size(&m2ts[..580]), Ok(192));
}

#[test]
fn reading_gives_back_what_was_written() {
    let data = stream(&[b"abc", b"defgh"]);
    let mut reader = TsPayloadReader::open(&data, 188, 0x0100);
    assert_eq!(reader.read(4), Ok(b"abcd".to_vec()));
    assert_eq!(reader.read_exact(3), Ok(b"efg".to_vec()));
    assert_eq!(reader.read_exact(2), Err(StreamEnd::Eof));
    let mut reader = TsPayloadReader::open(&data, 188, 0x0100);
    assert_eq!(reader.read(100), Ok(b"abcdefgh".to_vec()));
    assert_eq!(reader.read(1), Ok(Vec::new()));
}

#[test]
fn writer_refuses_what_does_not_fit() {
    let mut writer = TsDataWriter::new();
    assert_eq!(writer.write_data_packet(&[]), Err(WriteError::PayloadLength(0)));
    assert_eq!(writer.write_data_packet(&[0; 185]), Err(WriteError::PayloadLength(185)));
    assert_eq!(writer.write_data_packet(&[0; 184]), Ok(()));
    assert_eq!(writer.finish().len(), 188 * 3);
    let mut out = Vec::new();
    assert_eq!(
        tsbox::ts_writer::write_section_packet(&mut out, 0, true, &[0; 184]),
        Err(WriteError::SectionTooLarge)
    );
    assert_eq!(tsbox::ts_writer::write_section_packet(&mut out, 0, true, &[0; 183]), Ok(()));
    assert_eq!(out.len(), 188);
}
