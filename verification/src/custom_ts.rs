//! The TSBOX container: one file, with its name, size and checksum, carried as
//! the data stream of a transport stream.

use vstd::prelude::*;
use vstd::slice::slice_subrange;
use vstd::string::StringSliceAdditionalSpecFns;
use vstd::utf8::decode_utf8;
use vstd::utf8::decode_utf8_encode_utf8;
use vstd::utf8::encode_utf8;
use vstd::utf8::encode_utf8_valid_utf8;
use vstd::utf8::is_char_boundary;
use vstd::utf8::is_char_boundary_iff_not_is_continuation_byte;
use vstd::utf8::is_char_boundary_start_end_of_seq;
use vstd::utf8::pop_first_scalar;
use vstd::utf8::valid_first_scalar;
use vstd::utf8::valid_utf8;
use vstd::utf8::valid_utf8_split;

use crate::bytes::append;
use crate::bytes::append_be64;
use crate::bytes::be16;
use crate::bytes::be16_bytes;
use crate::bytes::be64;
use crate::bytes::be64_bytes;
use crate::bytes::contains_byte;
use crate::bytes::pieces;
use crate::bytes::read_be16;
use crate::bytes::read_be64;
use crate::bytes::same_bytes;
use crate::digest::sha256;
use crate::digest::sha256_digest;
use crate::digest::MAX_HASHED;
use crate::paths::extension_of;
use crate::paths::find_extension_dot;
use crate::packet::M2TS_PACKET_SIZE;
use crate::packet::SYNC_BYTE;
use crate::packet::TS_PACKET_SIZE;
use crate::ts_reader::lemma_stream_len;
use crate::ts_reader::payload_stream;
use crate::ts_reader::PayloadStream;
use crate::ts_reader::StreamEnd;
use crate::ts_reader::TsPayloadReader;
use crate::ts_writer::data_packets;
use crate::ts_writer::table_packets;
use crate::ts_writer::TsDataWriter;
use crate::ts_writer::DATA_PID;
use crate::utf8::string_from_utf8;

verus! {

/// The only container version.
pub const VERSION: u8 = 1;

/// Header bytes before the file name.
pub const FIXED_HEADER_LEN: usize = 18;

/// The longest file name, in bytes, that a reader accepts.
pub const MAX_NAME_LEN: usize = 4096;

/// The file content is written in runs of this many bytes.
pub const CHUNK: usize = 1048576;

/// Trailer bytes: the mark and the digest.
pub const TRAILER_LEN: usize = 40;

/// The part of a container in which a stream broke off.
#[derive(Clone, Copy, Debug, PartialEq, Eq, Structural)]
pub enum Part {
    Header,
    Name,
    Content,
    Trailer,
}

/// Why a file cannot be packed or unpacked.
#[derive(Clone, Copy, Debug, PartialEq, Eq, Structural)]
pub enum TsboxError {
    /// The input holds no bytes.
    EmptyInput,
    /// The input is neither 188-byte TS nor 192-byte M2TS.
    UnrecognizedLayout,
    /// The stream ends inside the part.
    Truncated(Part, StreamEnd),
    /// The container has another version.
    UnsupportedVersion(u8),
    /// The file name is empty or too long to read back.
    NameLength(usize),
    /// The file name is not text.
    NameNotUtf8,
    /// The file name holds a directory separator.
    NotBasename,
    /// The stream does not hold a container.
    NotTsbox,
    /// The content is not followed by the trailer mark.
    InvalidTrailer,
    /// The content does not have the digest in the trailer.
    ChecksumMismatch,
    /// The file name does not fit its length field.
    NameTooLong,
}

/// The first bytes of a container.
pub open spec fn magic() -> Seq<u8> {
    seq![0x54u8, 0x53u8, 0x42u8, 0x4Fu8, 0x58u8, 0x31u8, 0x00u8]
}

/// The first bytes of a trailer.
pub open spec fn trailer_magic() -> Seq<u8> {
    seq![0x54u8, 0x53u8, 0x42u8, 0x4Fu8, 0x58u8, 0x45u8, 0x4Eu8, 0x44u8]
}

/// A name without a slash, which separates directories everywhere. A backslash
/// is an ordinary character of a name, except where paths are written with it.
pub open spec fn is_basename(name: Seq<u8>) -> bool {
    !name.contains(0x2Fu8)
}

/// The header of a container.
pub open spec fn header_bytes(name: Seq<u8>, size: u64) -> Seq<u8> {
    magic() + seq![VERSION] + be16_bytes(name.len() as u16) + be64_bytes(size) + name
}

/// The trailer of a container.
pub open spec fn trailer_bytes(digest: Seq<u8>) -> Seq<u8> {
    trailer_magic() + digest
}

/// The payloads of parts that are written one after the other, each beginning
/// a packet of its own.
pub open spec fn part_payloads(parts: Seq<Seq<u8>>) -> Seq<Seq<u8>>
    decreases parts.len(),
{
    if parts.len() == 0 {
        Seq::empty()
    } else {
        pieces(parts[0], 184) + part_payloads(parts.drop_first())
    }
}

/// The parts of a container in the order they are written.
pub open spec fn container_parts(
    name: Seq<u8>,
    size: u64,
    content: Seq<u8>,
    digest: Seq<u8>,
) -> Seq<Seq<u8>> {
    seq![header_bytes(name, size)] + pieces(content, CHUNK as nat) + seq![trailer_bytes(digest)]
}

/// A transport stream that carries a container.
pub open spec fn packed(name: Seq<u8>, size: u64, content: Seq<u8>, digest: Seq<u8>) -> Seq<u8> {
    table_packets() + data_packets(0, part_payloads(container_parts(name, size, content, digest)))
}

/// Whether packets of `size` bytes, with the sync byte at `offset`, begin at
/// the start of `probe`: three of them, all there.
pub open spec fn has_layout(probe: Seq<u8>, size: int, offset: int) -> bool {
    &&& probe.len() >= offset + size * 3
    &&& probe[offset] == SYNC_BYTE
    &&& probe[offset + size] == SYNC_BYTE
    &&& probe[offset + size * 2] == SYNC_BYTE
}

/// The packet size that the first five packets' worth of `data` shows.
pub open spec fn packet_size_of(data: Seq<u8>) -> Option<int> {
    let probe = if data.len() > 960 {
        data.take(960)
    } else {
        data
    };
    if has_layout(probe, 188, 0) {
        Some(188)
    } else if has_layout(probe, 192, 4) {
        Some(192)
    } else {
        None
    }
}

/// The data stream of `data`, where its packet size shows.
pub open spec fn data_stream(data: Seq<u8>) -> Result<PayloadStream, TsboxError> {
    match packet_size_of(data) {
        Some(size) => Ok(payload_stream(data, 0, size, DATA_PID)),
        None => Err(
            if data.len() == 0 {
                TsboxError::EmptyInput
            } else {
                TsboxError::UnrecognizedLayout
            },
        ),
    }
}

/// What a container says of the file it holds.
pub struct MetadataView {
    pub original_name: Seq<char>,
    pub size: u64,
}

/// The length of the file name in a header.
pub open spec fn name_len(header: Seq<u8>) -> int {
    be16(header[8], header[9])
}

/// Reads the head of a stream. `Ok(None)` where it is no container; a stream
/// too short for a header is no container either, unless `strict`.
pub open spec fn metadata_of(stream: PayloadStream, strict: bool) -> Result<
    Option<MetadataView>,
    TsboxError,
> {
    let bytes = stream.bytes;
    if bytes.len() < FIXED_HEADER_LEN {
        if stream.end == StreamEnd::Eof && !strict {
            Ok(None)
        } else {
            Err(TsboxError::Truncated(Part::Header, stream.end))
        }
    } else if bytes.take(7) != magic() {
        Ok(None)
    } else if bytes[7] != VERSION {
        Err(TsboxError::UnsupportedVersion(bytes[7]))
    } else if name_len(bytes) == 0 || name_len(bytes) > MAX_NAME_LEN {
        Err(TsboxError::NameLength(name_len(bytes) as usize))
    } else if bytes.len() < FIXED_HEADER_LEN + name_len(bytes) {
        Err(TsboxError::Truncated(Part::Name, stream.end))
    } else {
        let name = bytes.subrange(FIXED_HEADER_LEN as int, FIXED_HEADER_LEN + name_len(bytes));
        if !valid_utf8(name) {
            Err(TsboxError::NameNotUtf8)
        } else if !is_basename(name) {
            Err(TsboxError::NotBasename)
        } else {
            Ok(
                Some(
                    MetadataView {
                        original_name: decode_utf8(name),
                        size: be64(bytes.subrange(10, 18)),
                    },
                ),
            )
        }
    }
}

/// How many bytes of a stream are taken to read its head: the fixed part alone
/// where that tells that there is no readable name, else the name too. `None`
/// where the stream ends before that.
pub open spec fn metadata_taken(stream: PayloadStream) -> Option<int> {
    let bytes = stream.bytes;
    if bytes.len() < FIXED_HEADER_LEN {
        None
    } else if bytes.take(7) != magic() || bytes[7] != VERSION || name_len(bytes) == 0 || name_len(
        bytes,
    ) > MAX_NAME_LEN {
        Some(FIXED_HEADER_LEN as int)
    } else if bytes.len() < FIXED_HEADER_LEN + name_len(bytes) {
        None
    } else {
        Some(FIXED_HEADER_LEN + name_len(bytes))
    }
}

/// A container taken apart.
pub struct UnpackedView {
    pub metadata: MetadataView,
    pub content: Seq<u8>,
    pub trailer: Seq<u8>,
}

/// Takes a container apart, without judging its trailer.
pub open spec fn unpacked(stream: PayloadStream) -> Result<UnpackedView, TsboxError> {
    match metadata_of(stream, true) {
        Err(e) => Err(e),
        Ok(None) => Err(TsboxError::NotTsbox),
        Ok(Some(metadata)) => {
            let body = stream.bytes.skip(FIXED_HEADER_LEN + name_len(stream.bytes));
            let size = metadata.size as int;
            if body.len() < size {
                Err(TsboxError::Truncated(Part::Content, stream.end))
            } else if body.len() < size + TRAILER_LEN {
                Err(TsboxError::Truncated(Part::Trailer, stream.end))
            } else {
                Ok(
                    UnpackedView {
                        metadata,
                        content: body.take(size),
                        trailer: body.subrange(size, size + TRAILER_LEN),
                    },
                )
            }
        },
    }
}

/// Holds a trailer against the digest of the content before it.
pub open spec fn trailer_verdict(trailer: Seq<u8>, digest: Seq<u8>) -> Result<(), TsboxError> {
    if trailer.take(8) != trailer_magic() {
        Err(TsboxError::InvalidTrailer)
    } else if trailer.skip(8) != digest {
        Err(TsboxError::ChecksumMismatch)
    } else {
        Ok(())
    }
}

/// What `probe` finds in `data`.
pub open spec fn probed(data: Seq<u8>) -> Result<Option<MetadataView>, TsboxError> {
    match data_stream(data) {
        Err(e) => Err(e),
        Ok(stream) => metadata_of(stream, false),
    }
}

/// What `unpack` finds in `data`.
pub open spec fn container_of(data: Seq<u8>) -> Result<UnpackedView, TsboxError> {
    match data_stream(data) {
        Err(e) => Err(e),
        Ok(stream) => unpacked(stream),
    }
}

/// What `extract_file` gives for `data`.
pub open spec fn extracted(data: Seq<u8>) -> Result<(MetadataView, Seq<u8>), TsboxError> {
    match container_of(data) {
        Err(e) => Err(e),
        Ok(u) => match trailer_verdict(u.trailer, sha256(u.content)@) {
            Err(e) => Err(e),
            Ok(()) => Ok((u.metadata, u.content)),
        },
    }
}

/// The name and size of a packed file.
#[derive(Clone, Debug, PartialEq, Eq)]
pub struct Metadata {
    pub original_name: String,
    pub size: u64,
}

impl View for Metadata {
    type V = MetadataView;

    open spec fn view(&self) -> MetadataView {
        MetadataView { original_name: self.original_name@, size: self.size }
    }
}

impl Metadata {
    /// The name is a file name, not a path.
    pub open spec fn wf(&self) -> bool {
        is_basename(encode_utf8(self.original_name@))
    }

    /// The extension of the original file name: what follows its last dot,
    /// unless the name begins with that dot.
    pub fn original_extension(&self) -> (extension: Option<&str>)
        requires
            self.wf(),
        ensures
            match extension_of(encode_utf8(self.original_name@)) {
                Some(ext) => extension matches Some(found) && found.spec_bytes() == ext,
                None => extension is None,
            },
    {
        let name = self.original_name.as_str();
        let bytes = name.as_bytes();
        match find_extension_dot(bytes) {
            None => None,
            Some(dot) => {
                proof {
                    encode_utf8_valid_utf8(name@);
                    lemma_boundary_after_dot(encode_utf8(name@), dot as int);
                }
                let (_, found) = name.split_at(dot + 1);
                assert(found.spec_bytes() =~= encode_utf8(name@).skip(dot + 1));
                Some(found)
            },
        }
    }
}

/// A dot in valid UTF-8 is a character of its own.
proof fn lemma_boundary_after_dot(bytes: Seq<u8>, dot: int)
    requires
        valid_utf8(bytes),
        0 <= dot < bytes.len(),
        bytes[dot] == 0x2E,
    ensures
        is_char_boundary(bytes, dot + 1),
{
    let end = bytes.len() as int;
    is_char_boundary_iff_not_is_continuation_byte(bytes, dot);
    valid_utf8_split(bytes, dot);
    let tail = bytes.subrange(dot, end);
    assert(valid_utf8(tail));
    assert(tail[0] == 0x2E);
    assert(pop_first_scalar(tail) =~= bytes.subrange(dot + 1, end));
    if dot + 1 == end {
        is_char_boundary_start_end_of_seq(bytes);
    } else {
        let rest = bytes.subrange(dot + 1, end);
        assert(valid_utf8(rest));
        assert(valid_first_scalar(rest));
        assert(rest[0] == bytes[dot + 1]);
        is_char_boundary_iff_not_is_continuation_byte(bytes, dot + 1);
    }
}

/// The view of a probe's finding.
pub open spec fn finding_view(finding: Option<Metadata>) -> Option<MetadataView> {
    match finding {
        Some(m) => Some(m@),
        None => None,
    }
}

/// A container taken apart, its trailer not yet judged.
pub struct Unpacked {
    pub metadata: Metadata,
    pub content: Vec<u8>,
    pub trailer: Vec<u8>,
}

impl View for Unpacked {
    type V = UnpackedView;

    open spec fn view(&self) -> UnpackedView {
        UnpackedView {
            metadata: self.metadata@,
            content: self.content@,
            trailer: self.trailer@,
        }
    }
}

/// The container mark as a vector.
fn magic_vec() -> (bytes: Vec<u8>)
    ensures
        bytes@ == magic(),
{
    let bytes: Vec<u8> = vec![0x54, 0x53, 0x42, 0x4F, 0x58, 0x31, 0x00];
    assert(bytes@ =~= magic());
    bytes
}

/// The trailer mark as a vector.
fn trailer_magic_vec() -> (bytes: Vec<u8>)
    ensures
        bytes@ == trailer_magic(),
{
    let bytes: Vec<u8> = vec![0x54, 0x53, 0x42, 0x4F, 0x58, 0x45, 0x4E, 0x44];
    assert(bytes@ =~= trailer_magic());
    bytes
}

/// Whether three packets of `size` bytes begin at the start of `probe`.
fn check_layout(probe: &[u8], size: usize, offset: usize) -> (found: bool)
    requires
        1 <= size <= 192,
        offset <= 4,
    ensures
        found == has_layout(probe@, size as int, offset as int),
{
    probe.len() >= offset + size * 3 && probe[offset] == SYNC_BYTE && probe[offset + size]
        == SYNC_BYTE && probe[offset + size * 2] == SYNC_BYTE
}

/// The packet size of `data`: 188, or 192 where each packet is preceded by a
/// timestamp.
pub fn detect_packet_size(data: &[u8]) -> (result: Result<usize, TsboxError>)
    ensures
        match packet_size_of(data@) {
            Some(size) => result == Ok::<usize, TsboxError>(size as usize),
            None => result == Err::<usize, TsboxError>(
                if data@.len() == 0 {
                    TsboxError::EmptyInput
                } else {
                    TsboxError::UnrecognizedLayout
                },
            ),
        },
{
    let limit: usize = M2TS_PACKET_SIZE * 5;
    let probe = if data.len() > limit {
        slice_subrange(data, 0, limit)
    } else {
        data
    };
    if check_layout(probe, TS_PACKET_SIZE, 0) {
        return Ok(TS_PACKET_SIZE);
    }
    if check_layout(probe, M2TS_PACKET_SIZE, 4) {
        return Ok(M2TS_PACKET_SIZE);
    }
    if data.len() == 0 {
        return Err(TsboxError::EmptyInput);
    }
    Err(TsboxError::UnrecognizedLayout)
}

/// Opens the data stream of `data`.
fn open_data_stream(data: &[u8]) -> (result: Result<TsPayloadReader<'_>, TsboxError>)
    ensures
        match data_stream(data@) {
            Ok(stream) => result matches Ok(reader) && reader.wf() && reader.remaining() == stream,
            Err(e) => result matches Err(err) && err == e,
        },
{
    let packet_size = detect_packet_size(data)?;
    Ok(TsPayloadReader::open(data, packet_size, DATA_PID))
}

/// Reads the head of a container, and leaves the reader at the content. Where
/// there is no container, or its head cannot be read, the reader stands behind
/// what was read of it.
pub fn read_metadata(reader: &mut TsPayloadReader<'_>, strict: bool) -> (result: Result<
    Option<Metadata>,
    TsboxError,
>)
    requires
        old(reader).wf(),
    ensures
        final(reader).wf(),
        final(reader).same_source(&*old(reader)),
        match metadata_of(old(reader).remaining(), strict) {
            Err(e) => result matches Err(err) && err == e,
            Ok(None) => result matches Ok(None),
            Ok(Some(m)) => result matches Ok(Some(found)) && found@ == m && found.wf(),
        },
        match metadata_taken(old(reader).remaining()) {
            Some(count) => {
                let all = old(reader).remaining();
                &&& final(reader).remaining().bytes == all.bytes.skip(count)
                &&& final(reader).remaining().end == all.end
            },
            None => final(reader).ran_out(&*old(reader)),
        },
{
    let ghost all = reader.remaining();
    let fixed = match reader.read_exact(FIXED_HEADER_LEN) {
        Ok(fixed) => fixed,
        Err(end) => {
            if end == StreamEnd::Eof && !strict {
                return Ok(None);
            }
            return Err(TsboxError::Truncated(Part::Header, end));
        },
    };
    let mark = magic_vec();
    assert(fixed@.take(7) =~= all.bytes.take(7));
    let head = slice_subrange(&fixed, 0, 7);
    assert(head@ =~= fixed@.take(7));
    if !same_bytes(head, &mark) {
        return Ok(None);
    }
    if fixed[7] != VERSION {
        return Err(TsboxError::UnsupportedVersion(fixed[7]));
    }
    let len: usize = read_be16(fixed[8], fixed[9]) as usize;
    assert(len == name_len(all.bytes));
    if len == 0 || len > MAX_NAME_LEN {
        return Err(TsboxError::NameLength(len));
    }
    let size_field = slice_subrange(&fixed, 10, 18);
    assert(size_field@ =~= all.bytes.subrange(10, 18));
    let size: u64 = read_be64(size_field);
    let name = match reader.read_exact(len) {
        Ok(name) => name,
        Err(end) => {
            return Err(TsboxError::Truncated(Part::Name, end));
        },
    };
    assert(name@ =~= all.bytes.subrange(FIXED_HEADER_LEN as int, FIXED_HEADER_LEN + len));
    assert(reader.remaining().bytes =~= all.bytes.skip(FIXED_HEADER_LEN + len));
    let separated: bool = contains_byte(&name, 0x2F);
    match string_from_utf8(name) {
        None => Err(TsboxError::NameNotUtf8),
        Some(original_name) => {
            if separated {
                Err(TsboxError::NotBasename)
            } else {
                proof {
                    decode_utf8_encode_utf8(all.bytes.subrange(18, 18 + len));
                }
                Ok(Some(Metadata { original_name, size }))
            }
        },
    }
}

/// Reads what a container in `data` says of its file. `Ok(None)` where `data`
/// is a transport stream that holds no container.
pub fn probe(data: &[u8]) -> (result: Result<Option<Metadata>, TsboxError>)
    ensures
        match probed(data@) {
            Err(e) => result matches Err(err) && err == e,
            Ok(m) => result matches Ok(found) && finding_view(found) == m,
        },
        result matches Ok(Some(found)) ==> found.wf(),
{
    let mut reader = open_data_stream(data)?;
    read_metadata(&mut reader, false)
}

/// Takes the container in `data` apart.
pub fn unpack(data: &[u8]) -> (result: Result<Unpacked, TsboxError>)
    ensures
        match container_of(data@) {
            Err(e) => result matches Err(err) && err == e,
            Ok(u) => result matches Ok(found) && found@ == u && found.metadata.wf(),
        },
        result matches Ok(found) ==> found.content@.len() <= data@.len(),
{
    let mut reader = open_data_stream(data)?;
    let ghost all = reader.remaining();
    let metadata = match read_metadata(&mut reader, true)? {
        Some(metadata) => metadata,
        None => {
            return Err(TsboxError::NotTsbox);
        },
    };
    let ghost body = reader.remaining().bytes;
    let mut content: Vec<u8> = Vec::new();
    let mut left: u64 = metadata.size;
    assert(body =~= content@ + reader.remaining().bytes);
    while left > 0
        invariant
            reader.wf(),
            body == content@ + reader.remaining().bytes,
            reader.remaining().end == all.end,
            content@.len() + left == metadata.size,
            data_stream(data@) == Ok::<PayloadStream, TsboxError>(all),
            metadata_of(all, true) == Ok::<Option<MetadataView>, TsboxError>(Some(metadata@)),
            metadata.wf(),
            body == all.bytes.skip(FIXED_HEADER_LEN + name_len(all.bytes)),
        decreases left,
    {
        let want: usize = if left < CHUNK as u64 { left as usize } else { CHUNK };
        match reader.read_exact(want) {
            Ok(chunk) => {
                append(&mut content, &chunk);
                left = left - want as u64;
                assert(body =~= content@ + reader.remaining().bytes);
            },
            Err(end) => {
                return Err(TsboxError::Truncated(Part::Content, end));
            },
        }
    }
    let trailer = match reader.read_exact(TRAILER_LEN) {
        Ok(trailer) => trailer,
        Err(end) => {
            return Err(TsboxError::Truncated(Part::Trailer, end));
        },
    };
    let found = Unpacked { metadata, content, trailer };
    proof {
        let size = metadata.size as int;
        assert(content@ =~= body.take(size));
        assert(trailer@ =~= body.subrange(size, size + TRAILER_LEN));
        lemma_stream_len(data@, 0, packet_size_of(data@).unwrap(), DATA_PID);
    }
    Ok(found)
}

/// Holds a trailer against the digest of the content before it.
pub fn check_trailer(trailer: &[u8], digest: &[u8]) -> (result: Result<(), TsboxError>)
    requires
        trailer@.len() >= 8,
    ensures
        result == trailer_verdict(trailer@, digest@),
{
    let mark = trailer_magic_vec();
    let head = slice_subrange(trailer, 0, 8);
    assert(head@ =~= trailer@.take(8));
    if !same_bytes(head, &mark) {
        return Err(TsboxError::InvalidTrailer);
    }
    let tail = slice_subrange(trailer, 8, trailer.len());
    assert(tail@ =~= trailer@.skip(8));
    if !same_bytes(tail, digest) {
        return Err(TsboxError::ChecksumMismatch);
    }
    Ok(())
}

/// Gives back the file in a container: its name and size, and its content once
/// the digest has been found to match.
pub fn extract_file(data: &[u8]) -> (result: Result<(Metadata, Vec<u8>), TsboxError>)
    requires
        data@.len() <= MAX_HASHED,
    ensures
        match extracted(data@) {
            Err(e) => result matches Err(err) && err == e,
            Ok((m, content)) => result matches Ok(found) && found.0@ == m && found.0.wf()
                && found.1@ == content,
        },
{
    let found = unpack(data)?;
    let digest = sha256_digest(&found.content);
    check_trailer(&found.trailer, &digest)?;
    Ok((found.metadata, found.content))
}

/// Writing more payloads continues the counter.
pub proof fn lemma_data_packets_concat(counter: u8, a: Seq<Seq<u8>>, b: Seq<Seq<u8>>)
    requires
        counter < 16,
    ensures
        data_packets(counter, a + b) == data_packets(counter, a) + data_packets(
            ((counter + a.len()) % 16) as u8,
            b,
        ),
    decreases a.len(),
{
    if a.len() == 0 {
        assert(a + b =~= b);
        assert(data_packets(counter, a + b) =~= data_packets(counter, a) + data_packets(counter, b));
    } else {
        let next = ((counter + 1) % 16) as u8;
        assert((a + b).drop_first() =~= a.drop_first() + b);
        lemma_data_packets_concat(next, a.drop_first(), b);
        assert((next + a.drop_first().len()) % 16 == (counter + a.len()) % 16);
        assert(data_packets(counter, a + b) =~= data_packets(counter, a) + data_packets(
            ((counter + a.len()) % 16) as u8,
            b,
        ));
    }
}

/// The payloads of one more part follow those of the parts before it.
pub proof fn lemma_part_payloads_push(parts: Seq<Seq<u8>>, part: Seq<u8>)
    ensures
        part_payloads(parts.push(part)) == part_payloads(parts) + pieces(part, 184),
    decreases parts.len(),
{
    if parts.len() == 0 {
        reveal_with_fuel(part_payloads, 2);
        assert(parts.push(part).drop_first() =~= Seq::<Seq<u8>>::empty());
        assert(part_payloads(parts.push(part)) =~= part_payloads(parts) + pieces(part, 184));
    } else {
        assert(parts.push(part).drop_first() =~= parts.drop_first().push(part));
        lemma_part_payloads_push(parts.drop_first(), part);
        assert(part_payloads(parts.push(part)) =~= part_payloads(parts) + pieces(part, 184));
    }
}

/// The writer holds a stream of exactly these parts.
spec fn holds_parts(writer: &TsDataWriter, parts: Seq<Seq<u8>>) -> bool {
    &&& writer.wf()
    &&& writer.out@ == table_packets() + data_packets(0, part_payloads(parts))
    &&& writer.continuity == part_payloads(parts).len() % 16
}

/// Writes one more part.
fn write_part(writer: &mut TsDataWriter, part: &[u8], Ghost(parts): Ghost<Seq<Seq<u8>>>)
    requires
        holds_parts(&*old(writer), parts),
    ensures
        holds_parts(&*final(writer), parts.push(part@)),
{
    writer.write_data(part);
    proof {
        let before = part_payloads(parts);
        lemma_part_payloads_push(parts, part@);
        lemma_data_packets_concat(0, before, pieces(part@, 184));
        assert(writer.out@ =~= table_packets() + data_packets(
            0,
            part_payloads(parts.push(part@)),
        ));
        let n = before.len() as int;
        let k = pieces(part@, 184).len() as int;
        assert((n % 16 + k) % 16 == (n + k) % 16);
    }
}

/// Packs a file whose digest is known. Fails where the name is longer than its
/// length field can say.
pub fn pack_with_digest(name: &str, size: u64, content: &[u8], digest: &[u8]) -> (result: Result<
    Vec<u8>,
    TsboxError,
>)
    ensures
        name.spec_bytes().len() > 65535 ==> result == Err::<Vec<u8>, TsboxError>(
            TsboxError::NameTooLong,
        ),
        name.spec_bytes().len() <= 65535 ==> (result matches Ok(out) && out@ == packed(
            name.spec_bytes(),
            size,
            content@,
            digest@,
        )),
{
    let name_bytes = name.as_bytes();
    if name_bytes.len() > 65535 {
        return Err(TsboxError::NameTooLong);
    }
    let len: usize = name_bytes.len();
    let mut header = magic_vec();
    header.push(VERSION);
    header.push((len / 256) as u8);
    header.push((len % 256) as u8);
    append_be64(&mut header, size);
    append(&mut header, name_bytes);
    assert(header@ =~= header_bytes(name.spec_bytes(), size));

    let mut writer = TsDataWriter::new();
    let ghost mut parts: Seq<Seq<u8>> = Seq::empty();
    assert(writer.out@ =~= table_packets() + data_packets(0, part_payloads(parts)));
    write_part(&mut writer, &header, Ghost(parts));
    proof {
        parts = parts.push(header@);
    }

    let mut rest: &[u8] = content;
    let ghost head = parts;
    assert(head + pieces(content@, CHUNK as nat) =~= parts + pieces(rest@, CHUNK as nat));
    while rest.len() > 0
        invariant
            holds_parts(&writer, parts),
            head + pieces(content@, CHUNK as nat) == parts + pieces(rest@, CHUNK as nat),
        decreases rest@.len(),
    {
        let ghost before = rest@;
        let take: usize = if rest.len() < CHUNK { rest.len() } else { CHUNK };
        let chunk = slice_subrange(rest, 0, take);
        write_part(&mut writer, chunk, Ghost(parts));
        rest = slice_subrange(rest, take, rest.len());
        proof {
            assert(rest@ =~= before.skip(take as int));
            assert(chunk@ =~= before.take(take as int));
            if before.len() <= CHUNK {
                assert(chunk@ =~= before);
                assert(rest@.len() == 0);
            }
            assert(parts + pieces(before, CHUNK as nat) =~= parts.push(chunk@) + pieces(
                rest@,
                CHUNK as nat,
            ));
            parts = parts.push(chunk@);
        }
    }

    let mut trailer = trailer_magic_vec();
    append(&mut trailer, digest);
    write_part(&mut writer, &trailer, Ghost(parts));
    proof {
        parts = parts.push(trailer@);
        assert(parts =~= container_parts(name.spec_bytes(), size, content@, digest@));
    }
    Ok(writer.finish())
}

/// Packs a file: `name` and `size` go into the header, the digest of `content`
/// into the trailer. Fails where the name is longer than 65535 bytes.
pub fn pack_file(name: &str, size: u64, content: &[u8]) -> (result: Result<Vec<u8>, TsboxError>)
    requires
        content@.len() <= MAX_HASHED,
    ensures
        name.spec_bytes().len() > 65535 ==> result == Err::<Vec<u8>, TsboxError>(
            TsboxError::NameTooLong,
        ),
        name.spec_bytes().len() <= 65535 ==> (result matches Ok(out) && out@ == packed(
            name.spec_bytes(),
            size,
            content@,
            sha256(content@)@,
        )),
{
    let digest = sha256_digest(content);
    pack_with_digest(name, size, content, &digest)
}

} // verus!
