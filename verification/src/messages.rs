//! What errors say.

use vstd::prelude::*;
use vstd::utf8::encode_utf8;

use crate::bytes::append;
use crate::custom_ts::Part;
use crate::custom_ts::TsboxError;
use crate::error::DemuxError;
use crate::inputs::InputError;
use crate::inputs::InputKind;
use crate::media::RemuxError;
use crate::paths::PathError;
use crate::preflight::TaskError;
use crate::text::append_decimal;
use crate::text::append_hex4;
use crate::text::decimal;
use crate::text::hex4;
use crate::ts_reader::StreamEnd;

verus! {

/// What was being read when a stream broke off.
pub open spec fn part_text(part: Part) -> Seq<u8> {
    match part {
        Part::Header => encode_utf8("failed to read TSBOX header"@),
        Part::Name => encode_utf8("failed to read TSBOX file name"@),
        Part::Content => encode_utf8("TSBOX payload ended before file content was complete"@),
        Part::Trailer => encode_utf8("TSBOX payload ended before checksum trailer"@),
    }
}

/// What was being read when a stream broke off.
fn part_words(part: Part) -> (text: &'static str)
    ensures
        encode_utf8(text@) == part_text(part),
{
    match part {
        Part::Header => "failed to read TSBOX header",
        Part::Name => "failed to read TSBOX file name",
        Part::Content => "TSBOX payload ended before file content was complete",
        Part::Trailer => "TSBOX payload ended before checksum trailer",
    }
}

/// What ended a stream.
pub open spec fn end_text(end: StreamEnd) -> Seq<u8> {
    match end {
        StreamEnd::Eof => encode_utf8("failed to fill whole buffer"@),
        StreamEnd::LostSync => encode_utf8("lost MPEG-TS sync byte"@),
        StreamEnd::InvalidAdaptation => encode_utf8("invalid TS adaptation field length"@),
    }
}

/// What ended a stream.
fn end_words(end: StreamEnd) -> (text: &'static str)
    ensures
        encode_utf8(text@) == end_text(end),
{
    match end {
        StreamEnd::Eof => "failed to fill whole buffer",
        StreamEnd::LostSync => "lost MPEG-TS sync byte",
        StreamEnd::InvalidAdaptation => "invalid TS adaptation field length",
    }
}

/// The words for why a file cannot be packed or unpacked.
pub open spec fn tsbox_text(error: TsboxError) -> Seq<u8> {
    match error {
        TsboxError::EmptyInput => encode_utf8("empty TS input"@),
        TsboxError::UnrecognizedLayout => encode_utf8("input does not look like 188-byte TS or 192-byte M2TS"@),
        TsboxError::Truncated(part, end) => part_text(part) + encode_utf8(": "@) + end_text(end),
        TsboxError::UnsupportedVersion(version) => encode_utf8("unsupported TSBOX version: "@) + decimal(version as nat),
        TsboxError::NameLength(len) => encode_utf8("invalid TSBOX file name length: "@) + decimal(len as nat),
        TsboxError::NameNotUtf8 => encode_utf8("TSBOX file name is not valid UTF-8"@),
        TsboxError::NotBasename => encode_utf8("TSBOX file name must be a basename"@),
        TsboxError::NotTsbox => encode_utf8("not a TSBOX file"@),
        TsboxError::InvalidTrailer => encode_utf8("invalid TSBOX trailer"@),
        TsboxError::ChecksumMismatch => encode_utf8("TSBOX checksum mismatch"@),
        TsboxError::NameTooLong => encode_utf8("file name is too long"@),
    }
}

impl TsboxError {
    /// The words for the error.
    pub fn message(&self) -> (text: Vec<u8>)
        ensures
            text@ == tsbox_text(*self),
    {
        let mut text: Vec<u8> = Vec::new();
        match self {
            TsboxError::EmptyInput => {
                append(&mut text, "empty TS input".as_bytes());
            },
            TsboxError::UnrecognizedLayout => {
                append(&mut text, "input does not look like 188-byte TS or 192-byte M2TS".as_bytes());
            },
            TsboxError::Truncated(part, end) => {
                append(&mut text, part_words(*part).as_bytes());
                append(&mut text, ": ".as_bytes());
                append(&mut text, end_words(*end).as_bytes());
            },
            TsboxError::UnsupportedVersion(version) => {
                append(&mut text, "unsupported TSBOX version: ".as_bytes());
                append_decimal(&mut text, *version as u64);
            },
            TsboxError::NameLength(len) => {
                append(&mut text, "invalid TSBOX file name length: ".as_bytes());
                append_decimal(&mut text, *len as u64);
            },
            TsboxError::NameNotUtf8 => {
                append(&mut text, "TSBOX file name is not valid UTF-8".as_bytes());
            },
            TsboxError::NotBasename => {
                append(&mut text, "TSBOX file name must be a basename".as_bytes());
            },
            TsboxError::NotTsbox => {
                append(&mut text, "not a TSBOX file".as_bytes());
            },
            TsboxError::InvalidTrailer => {
                append(&mut text, "invalid TSBOX trailer".as_bytes());
            },
            TsboxError::ChecksumMismatch => {
                append(&mut text, "TSBOX checksum mismatch".as_bytes());
            },
            TsboxError::NameTooLong => {
                append(&mut text, "file name is too long".as_bytes());
            },
        }
        assert(text@ =~= tsbox_text(*self));
        text
    }
}

/// The words for why streams cannot be taken out.
pub open spec fn demux_text(error: DemuxError) -> Seq<u8> {
    match error {
        DemuxError::EmptyInput => encode_utf8("empty input"@),
        DemuxError::UnrecognizedLayout => encode_utf8("input does not look like 188-byte TS or 192-byte M2TS"@),
        DemuxError::InputNameNotUtf8 => encode_utf8("input file name is not valid UTF-8"@),
        DemuxError::SectionLength(len) => encode_utf8("invalid PSI section length: "@) + decimal(len as nat),
        DemuxError::PatLength => encode_utf8("invalid PAT section length"@),
        DemuxError::PmtLength => encode_utf8("invalid PMT section length"@),
        DemuxError::PmtDescriptorLength => encode_utf8("invalid PMT ES descriptor length"@),
        DemuxError::NoSupportedStreams => encode_utf8("no supported elementary streams found"@),
        DemuxError::NameCollision(first, second) => encode_utf8("output name collision for PIDs 0x"@) + hex4(first) + encode_utf8(" and 0x"@) + hex4(second),
        DemuxError::TransportError(pid) => encode_utf8("PID 0x"@) + hex4(pid) + encode_utf8(" has transport error indicator set"@),
        DemuxError::ContinuityMismatch(pid, expected, found) => encode_utf8("PID 0x"@) + hex4(pid) + encode_utf8(" continuity counter mismatch: expected "@) + decimal(expected as nat) + encode_utf8(", got "@) + decimal(found as nat),
        DemuxError::UnfinishedPes => encode_utf8("new PES packet started before previous PES declared length was complete"@),
        DemuxError::UnfinishedPesHeader => encode_utf8("new PES packet started before previous PES header was complete"@),
        DemuxError::PesStartCode => encode_utf8("invalid PES start code"@),
        DemuxError::PesLength => encode_utf8("invalid PES packet length"@),
        DemuxError::IncompletePesHeader(pid) => encode_utf8("PID 0x"@) + hex4(pid) + encode_utf8(" ended before a complete PES header"@),
        DemuxError::EmptyStream(pid) => encode_utf8("PID 0x"@) + hex4(pid) + encode_utf8(" produced no elementary stream payload; refusing empty output"@),
    }
}

impl DemuxError {
    /// The words for the error.
    pub fn message(&self) -> (text: Vec<u8>)
        ensures
            text@ == demux_text(*self),
    {
        let mut text: Vec<u8> = Vec::new();
        match self {
            DemuxError::EmptyInput => {
                append(&mut text, "empty input".as_bytes());
            },
            DemuxError::UnrecognizedLayout => {
                append(&mut text, "input does not look like 188-byte TS or 192-byte M2TS".as_bytes());
            },
            DemuxError::InputNameNotUtf8 => {
                append(&mut text, "input file name is not valid UTF-8".as_bytes());
            },
            DemuxError::SectionLength(len) => {
                append(&mut text, "invalid PSI section length: ".as_bytes());
                append_decimal(&mut text, *len as u64);
            },
            DemuxError::PatLength => {
                append(&mut text, "invalid PAT section length".as_bytes());
            },
            DemuxError::PmtLength => {
                append(&mut text, "invalid PMT section length".as_bytes());
            },
            DemuxError::PmtDescriptorLength => {
                append(&mut text, "invalid PMT ES descriptor length".as_bytes());
            },
            DemuxError::NoSupportedStreams => {
                append(&mut text, "no supported elementary streams found".as_bytes());
            },
            DemuxError::NameCollision(first, second) => {
                append(&mut text, "output name collision for PIDs 0x".as_bytes());
                append_hex4(&mut text, *first);
                append(&mut text, " and 0x".as_bytes());
                append_hex4(&mut text, *second);
            },
            DemuxError::TransportError(pid) => {
                append(&mut text, "PID 0x".as_bytes());
                append_hex4(&mut text, *pid);
                append(&mut text, " has transport error indicator set".as_bytes());
            },
            DemuxError::ContinuityMismatch(pid, expected, found) => {
                append(&mut text, "PID 0x".as_bytes());
                append_hex4(&mut text, *pid);
                append(&mut text, " continuity counter mismatch: expected ".as_bytes());
                append_decimal(&mut text, *expected as u64);
                append(&mut text, ", got ".as_bytes());
                append_decimal(&mut text, *found as u64);
            },
            DemuxError::UnfinishedPes => {
                append(&mut text, "new PES packet started before previous PES declared length was complete".as_bytes());
            },
            DemuxError::UnfinishedPesHeader => {
                append(&mut text, "new PES packet started before previous PES header was complete".as_bytes());
            },
            DemuxError::PesStartCode => {
                append(&mut text, "invalid PES start code".as_bytes());
            },
            DemuxError::PesLength => {
                append(&mut text, "invalid PES packet length".as_bytes());
            },
            DemuxError::IncompletePesHeader(pid) => {
                append(&mut text, "PID 0x".as_bytes());
                append_hex4(&mut text, *pid);
                append(&mut text, " ended before a complete PES header".as_bytes());
            },
            DemuxError::EmptyStream(pid) => {
                append(&mut text, "PID 0x".as_bytes());
                append_hex4(&mut text, *pid);
                append(&mut text, " produced no elementary stream payload; refusing empty output".as_bytes());
            },
        }
        assert(text@ =~= demux_text(*self));
        text
    }
}

/// The words for why an output path is refused.
pub open spec fn path_text(error: PathError) -> Seq<u8> {
    match error {
        PathError::NoFileName => encode_utf8("path has no file name"@),
        PathError::WouldOverwriteInput => encode_utf8("output path would overwrite input"@),
        PathError::OutputExists => encode_utf8("output already exists"@),
        PathError::TempExists => encode_utf8("temporary output already exists"@),
        PathError::Collision(_, _) => encode_utf8("output filename collision"@),
    }
}

impl PathError {
    /// The words for the error.
    pub fn message(&self) -> (text: Vec<u8>)
        ensures
            text@ == path_text(*self),
    {
        let mut text: Vec<u8> = Vec::new();
        match self {
            PathError::NoFileName => {
                append(&mut text, "path has no file name".as_bytes());
            },
            PathError::WouldOverwriteInput => {
                append(&mut text, "output path would overwrite input".as_bytes());
            },
            PathError::OutputExists => {
                append(&mut text, "output already exists".as_bytes());
            },
            PathError::TempExists => {
                append(&mut text, "temporary output already exists".as_bytes());
            },
            PathError::Collision(_, _) => {
                append(&mut text, "output filename collision".as_bytes());
            },
        }
        assert(text@ =~= path_text(*self));
        text
    }
}

/// The words for why there is no MP4 file.
pub open spec fn remux_text(error: RemuxError) -> Seq<u8> {
    match error {
        RemuxError::NotStarted => encode_utf8("failed to start ffmpeg; install ffmpeg or use TSBOX-packed files"@),
        RemuxError::Failed => encode_utf8("ffmpeg remux failed"@),
        RemuxError::NoOutput => encode_utf8("ffmpeg did not create output"@),
        RemuxError::EmptyOutput => encode_utf8("ffmpeg produced an empty output"@),
    }
}

impl RemuxError {
    /// The words for the error.
    pub fn message(&self) -> (text: Vec<u8>)
        ensures
            text@ == remux_text(*self),
    {
        let mut text: Vec<u8> = Vec::new();
        match self {
            RemuxError::NotStarted => {
                append(&mut text, "failed to start ffmpeg; install ffmpeg or use TSBOX-packed files".as_bytes());
            },
            RemuxError::Failed => {
                append(&mut text, "ffmpeg remux failed".as_bytes());
            },
            RemuxError::NoOutput => {
                append(&mut text, "ffmpeg did not create output".as_bytes());
            },
            RemuxError::EmptyOutput => {
                append(&mut text, "ffmpeg produced an empty output".as_bytes());
            },
        }
        assert(text@ =~= remux_text(*self));
        text
    }
}

/// The words for why there is nothing to work on.
pub open spec fn input_text(error: InputError) -> Seq<u8> {
    match error {
        InputError::NotFileOrDirectory => encode_utf8("input is neither a file nor a directory"@),
        InputError::NothingFound(InputKind::Pack) => encode_utf8("no files found to pack"@),
        InputError::NothingFound(InputKind::Extract) => encode_utf8("no .ts files found to extract"@),
    }
}

impl InputError {
    /// The words for the error.
    pub fn message(&self) -> (text: Vec<u8>)
        ensures
            text@ == input_text(*self),
    {
        let mut text: Vec<u8> = Vec::new();
        match self {
            InputError::NotFileOrDirectory => {
                append(&mut text, "input is neither a file nor a directory".as_bytes());
            },
            InputError::NothingFound(InputKind::Pack) => {
                append(&mut text, "no files found to pack".as_bytes());
            },
            InputError::NothingFound(InputKind::Extract) => {
                append(&mut text, "no .ts files found to extract".as_bytes());
            },
        }
        assert(text@ =~= input_text(*self));
        text
    }
}

/// The words for why the outputs of a file cannot be told.
pub open spec fn task_text(error: TaskError) -> Seq<u8> {
    match error {
        TaskError::Tsbox(e) => tsbox_text(e),
        TaskError::Path(e) => path_text(e),
        TaskError::Demux(e) => demux_text(e),
    }
}

impl TaskError {
    /// The words for the error.
    pub fn message(&self) -> (text: Vec<u8>)
        ensures
            text@ == task_text(*self),
    {
        match self {
            TaskError::Tsbox(e) => e.message(),
            TaskError::Path(e) => e.message(),
            TaskError::Demux(e) => e.message(),
        }
    }
}

} // verus!
