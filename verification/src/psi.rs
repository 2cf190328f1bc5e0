//! The program tables: their sections, and what they say of programs and
//! streams.

use vstd::prelude::*;
use vstd::slice::slice_subrange;

use crate::bytes::append;
use crate::bytes::be12;
use crate::bytes::be13;
use crate::bytes::be16;
use crate::bytes::read_be12;
use crate::bytes::read_be13;
use crate::bytes::read_be16;
use crate::bytes::views;
use crate::error::DemuxError;

verus! {

/// The longest section, header included.
pub const MAX_SECTION: usize = 4096;

/// The kinds of elementary stream that can be written out.
#[derive(Clone, Copy, Debug, PartialEq, Eq, Structural)]
pub enum StreamKind {
    Mpeg1Video,
    Mpeg2Video,
    H264,
    H265,
    Aac,
    Mp3,
    Ac3,
    EAc3,
    DvbSubtitle,
    Teletext,
    Lpcm,
}

/// One elementary stream of a program.
#[derive(Clone, Copy, Debug, PartialEq, Eq, Structural)]
pub struct StreamInfo {
    pub program_number: u16,
    pub pid: u16,
    pub kind: Option<StreamKind>,
}

/// The kind that a descriptor tag stands for.
pub open spec fn kind_of_tag(tag: u8) -> Option<StreamKind> {
    if tag == 0x56 {
        Some(StreamKind::Teletext)
    } else if tag == 0x59 {
        Some(StreamKind::DvbSubtitle)
    } else if tag == 0x6A {
        Some(StreamKind::Ac3)
    } else if tag == 0x7A {
        Some(StreamKind::EAc3)
    } else {
        None
    }
}

/// The kind that a list of descriptors stands for: that of the first complete
/// descriptor with a telling tag.
pub open spec fn private_kind(descriptors: Seq<u8>) -> Option<StreamKind>
    decreases descriptors.len(),
{
    if descriptors.len() < 2 || 2 + descriptors[1] > descriptors.len() {
        None
    } else {
        match kind_of_tag(descriptors[0]) {
            Some(kind) => Some(kind),
            None => private_kind(descriptors.skip(2 + descriptors[1])),
        }
    }
}

/// The kind that a stream type stands for, without regard to descriptors.
pub open spec fn kind_of_type(stream_type: u8) -> Option<StreamKind> {
    if stream_type == 0x01 {
        Some(StreamKind::Mpeg1Video)
    } else if stream_type == 0x02 {
        Some(StreamKind::Mpeg2Video)
    } else if stream_type == 0x1B {
        Some(StreamKind::H264)
    } else if stream_type == 0x24 {
        Some(StreamKind::H265)
    } else if stream_type == 0x0F {
        Some(StreamKind::Aac)
    } else if stream_type == 0x03 || stream_type == 0x04 {
        Some(StreamKind::Mp3)
    } else if stream_type == 0x81 {
        Some(StreamKind::Ac3)
    } else if stream_type == 0x87 {
        Some(StreamKind::EAc3)
    } else if stream_type == 0x80 {
        Some(StreamKind::Lpcm)
    } else {
        None
    }
}

/// The kind of a stream: by its type, else by its descriptors.
pub open spec fn kind_of(stream_type: u8, descriptors: Seq<u8>) -> Option<StreamKind> {
    match kind_of_type(stream_type) {
        Some(kind) => Some(kind),
        None => private_kind(descriptors),
    }
}

/// The file name extension of a stream kind.
pub open spec fn extension_text(kind: StreamKind) -> Seq<char> {
    match kind {
        StreamKind::Mpeg1Video => "m2v"@,
        StreamKind::Mpeg2Video => "m2v"@,
        StreamKind::H264 => "h264"@,
        StreamKind::H265 => "h265"@,
        StreamKind::Aac => "aac"@,
        StreamKind::Mp3 => "mp3"@,
        StreamKind::Ac3 => "ac3"@,
        StreamKind::EAc3 => "eac3"@,
        StreamKind::DvbSubtitle => "dvbsub"@,
        StreamKind::Teletext => "teletext"@,
        StreamKind::Lpcm => "lpcm"@,
    }
}

impl StreamKind {
    /// The kind of a stream: by its type, else by its descriptors.
    pub fn from_stream_type(stream_type: u8, descriptors: &[u8]) -> (kind: Option<StreamKind>)
        ensures
            kind == kind_of(stream_type, descriptors@),
    {
        match stream_type {
            0x01 => Some(StreamKind::Mpeg1Video),
            0x02 => Some(StreamKind::Mpeg2Video),
            0x1B => Some(StreamKind::H264),
            0x24 => Some(StreamKind::H265),
            0x0F => Some(StreamKind::Aac),
            0x03 | 0x04 => Some(StreamKind::Mp3),
            0x81 => Some(StreamKind::Ac3),
            0x87 => Some(StreamKind::EAc3),
            0x80 => Some(StreamKind::Lpcm),
            _ => infer_private_stream_kind(descriptors),
        }
    }

    /// The file name extension of this kind.
    pub fn extension(self) -> (text: &'static str)
        ensures
            text@ == extension_text(self),
    {
        match self {
            StreamKind::Mpeg1Video => "m2v",
            StreamKind::Mpeg2Video => "m2v",
            StreamKind::H264 => "h264",
            StreamKind::H265 => "h265",
            StreamKind::Aac => "aac",
            StreamKind::Mp3 => "mp3",
            StreamKind::Ac3 => "ac3",
            StreamKind::EAc3 => "eac3",
            StreamKind::DvbSubtitle => "dvbsub",
            StreamKind::Teletext => "teletext",
            StreamKind::Lpcm => "lpcm",
        }
    }
}

/// The kind that a list of descriptors stands for.
pub fn infer_private_stream_kind(descriptors: &[u8]) -> (kind: Option<StreamKind>)
    ensures
        kind == private_kind(descriptors@),
{
    let mut offset: usize = 0;
    assert(descriptors@.skip(0) =~= descriptors@);
    while descriptors.len() - offset >= 2
        invariant
            offset <= descriptors@.len(),
            private_kind(descriptors@) == private_kind(descriptors@.skip(offset as int)),
        decreases descriptors@.len() - offset,
    {
        let ghost rest = descriptors@.skip(offset as int);
        let tag: u8 = descriptors[offset];
        let len: usize = descriptors[offset + 1] as usize;
        if len > descriptors.len() - offset - 2 {
            return None;
        }
        match tag {
            0x56 => {
                return Some(StreamKind::Teletext);
            },
            0x59 => {
                return Some(StreamKind::DvbSubtitle);
            },
            0x6A => {
                return Some(StreamKind::Ac3);
            },
            0x7A => {
                return Some(StreamKind::EAc3);
            },
            _ => {},
        }
        offset = offset + 2 + len;
        assert(rest.skip(2 + len) =~= descriptors@.skip(offset as int));
    }
    None
}

/// The length that a section declares, header included.
pub open spec fn declared_len(section: Seq<u8>) -> int {
    3 + be12(section[1], section[2])
}

/// Sections cut from the front of a buffer.
pub struct Cut {
    /// The complete sections.
    pub sections: Seq<Seq<u8>>,
    /// What stays in the buffer.
    pub rest: Seq<u8>,
    /// The declared length of a section that cannot be, if there is one.
    pub invalid: Option<usize>,
}

/// Cuts complete sections from the front of a buffer. Stuffing, or a section
/// with an impossible length, empties the buffer.
pub open spec fn cut_sections(buffer: Seq<u8>) -> Cut
    decreases buffer.len(),
{
    let total = declared_len(buffer);
    if buffer.len() < 3 {
        Cut { sections: Seq::empty(), rest: buffer, invalid: None }
    } else if buffer[0] == 0xFF {
        Cut { sections: Seq::empty(), rest: Seq::empty(), invalid: None }
    } else if total < 7 || total > MAX_SECTION {
        Cut { sections: Seq::empty(), rest: Seq::empty(), invalid: Some((total - 3) as usize) }
    } else if buffer.len() < total {
        Cut { sections: Seq::empty(), rest: buffer, invalid: None }
    } else {
        let after = cut_sections(buffer.skip(total));
        Cut {
            sections: seq![buffer.take(total)] + after.sections,
            rest: after.rest,
            invalid: after.invalid,
        }
    }
}

/// The buffer with one more payload, before sections are cut from it. A payload
/// that begins a section restarts the buffer behind its pointer field; `None`
/// where the pointer leads out of the payload.
pub open spec fn fed_buffer(buffer: Seq<u8>, starts: bool, payload: Seq<u8>) -> Option<Seq<u8>> {
    if !starts {
        Some(buffer + payload)
    } else if payload.len() < 1 + payload[0] {
        None
    } else {
        Some(payload.skip(1 + payload[0]))
    }
}

/// What one more payload does to a buffer.
pub open spec fn pushed(buffer: Seq<u8>, starts: bool, payload: Seq<u8>) -> Cut {
    if payload.len() == 0 {
        Cut { sections: Seq::empty(), rest: buffer, invalid: None }
    } else {
        match fed_buffer(buffer, starts, payload) {
            None => Cut { sections: Seq::empty(), rest: Seq::empty(), invalid: None },
            Some(fed) => cut_sections(fed),
        }
    }
}

/// Puts table sections together from packet payloads.
pub struct SectionAssembler {
    pub buffer: Vec<u8>,
}

impl SectionAssembler {
    /// An assembler that has seen nothing.
    pub fn new() -> (assembler: SectionAssembler)
        ensures
            assembler.buffer@ == Seq::<u8>::empty(),
    {
        SectionAssembler { buffer: Vec::new() }
    }

    /// Adds one payload and gives the sections it completes. Fails, with the
    /// buffer emptied, at a section whose length is impossible.
    pub fn push(&mut self, payload_unit_start: bool, payload: &[u8]) -> (result: Result<
        Vec<Vec<u8>>,
        DemuxError,
    >)
        ensures
            final(self).buffer@ == pushed(old(self).buffer@, payload_unit_start, payload@).rest,
            match pushed(old(self).buffer@, payload_unit_start, payload@).invalid {
                Some(len) => result matches Err(e) && e == DemuxError::SectionLength(len),
                None => result matches Ok(sections) && views(sections@) == pushed(
                    old(self).buffer@,
                    payload_unit_start,
                    payload@,
                ).sections,
            },
    {
        let mut sections: Vec<Vec<u8>> = Vec::new();
        assert(views(sections@) =~= Seq::<Seq<u8>>::empty());
        if payload.len() == 0 {
            return Ok(sections);
        }
        if payload_unit_start {
            let pointer: usize = payload[0] as usize;
            self.buffer.clear();
            if payload.len() < 1 + pointer {
                return Ok(sections);
            }
            let tail = slice_subrange(payload, 1 + pointer, payload.len());
            append(&mut self.buffer, tail);
            assert(self.buffer@ =~= payload@.skip(1 + pointer));
        } else {
            append(&mut self.buffer, payload);
        }
        let ghost whole = cut_sections(self.buffer@);
        assert(whole.sections =~= views(sections@) + cut_sections(self.buffer@).sections);
        loop
            invariant
                whole == pushed(old(self).buffer@, payload_unit_start, payload@),
                whole.sections == views(sections@) + cut_sections(self.buffer@).sections,
                whole.rest == cut_sections(self.buffer@).rest,
                whole.invalid == cut_sections(self.buffer@).invalid,
            ensures
                self.buffer@ == whole.rest,
                whole.invalid is None,
                views(sections@) == whole.sections,
            decreases self.buffer@.len(),
        {
            let ghost start = self.buffer@;
            if self.buffer.len() < 3 {
                assert(views(sections@) =~= whole.sections);
                break;
            }
            if self.buffer[0] == 0xFF {
                self.buffer.clear();
                assert(views(sections@) =~= whole.sections);
                break;
            }
            let section_len: usize = read_be12(self.buffer[1], self.buffer[2]);
            let total: usize = 3 + section_len;
            if section_len < 4 || total > MAX_SECTION {
                self.buffer.clear();
                return Err(DemuxError::SectionLength(section_len));
            }
            if self.buffer.len() < total {
                assert(views(sections@) =~= whole.sections);
                break;
            }
            let mut section = self.buffer.split_off(total);
            std::mem::swap(&mut section, &mut self.buffer);
            let ghost before = sections@;
            let ghost cut = section@;
            sections.push(section);
            proof {
                assert(cut =~= start.take(total as int));
                assert(self.buffer@ =~= start.skip(total as int));
                assert(views(sections@) =~= views(before).push(cut));
                assert(whole.sections =~= views(sections@) + cut_sections(self.buffer@).sections);
            }
        }
        Ok(sections)
    }
}

/// The program number and table identifier in the `index`-th entry of a
/// program association table.
pub open spec fn pat_entry(section: Seq<u8>, index: int) -> (u16, u16) {
    let at = 8 + 4 * index;
    (
        be16(section[at], section[at + 1]) as u16,
        be13(section[at + 2], section[at + 3]) as u16,
    )
}

/// The programs in a program association table: its entries, without the one
/// for the network.
pub open spec fn pat_programs(section: Seq<u8>) -> Seq<(u16, u16)> {
    Seq::new(((declared_len(section) - 12) / 4) as nat, |i: int| pat_entry(section, i)).filter(
        |entry: (u16, u16)| entry.0 != 0,
    )
}

/// Whether a section is long enough for a program association table, and is one.
pub open spec fn is_pat(section: Seq<u8>) -> bool {
    section.len() >= 12 && section[0] == 0x00
}

/// What a section says as a program association table.
pub open spec fn pat_result(section: Seq<u8>) -> Result<Seq<(u16, u16)>, DemuxError> {
    if !is_pat(section) {
        Ok(Seq::empty())
    } else if declared_len(section) > section.len() || declared_len(section) < 12 {
        Err(DemuxError::PatLength)
    } else {
        Ok(pat_programs(section))
    }
}

/// Reads a program association table: the program number and the map table
/// identifier of each program. Any other section has none. Fails where the
/// table does not hold the length it declares.
pub fn parse_pat(section: &[u8]) -> (result: Result<Vec<(u16, u16)>, DemuxError>)
    ensures
        match pat_result(section@) {
            Ok(p) => result matches Ok(programs) && programs@ == p,
            Err(e) => result matches Err(err) && err == e,
        },
{
    let mut out: Vec<(u16, u16)> = Vec::new();
    if section.len() < 12 || section[0] != 0x00 {
        return Ok(out);
    }
    let total: usize = 3 + read_be12(section[1], section[2]);
    if total > section.len() || total < 12 {
        return Err(DemuxError::PatLength);
    }
    let mut offset: usize = 8;
    let end: usize = total - 4;
    let ghost count = ((declared_len(section@) - 12) / 4) as nat;
    let ghost keep = |entry: (u16, u16)| entry.0 != 0;
    let ghost mut done: int = 0;
    let ghost entries = |n: nat| Seq::new(n, |i: int| pat_entry(section@, i));
    proof {
        reveal(Seq::filter);
        assert(entries(0).filter(keep) =~= Seq::<(u16, u16)>::empty());
    }
    while offset + 4 <= end
        invariant
            section@.len() >= total == declared_len(section@),
            12 <= total <= 4098,
            end == total - 4,
            0 <= done <= count,
            offset == 8 + 4 * done,
            count == (total - 12) / 4,
            keep == (|entry: (u16, u16)| entry.0 != 0),
            entries == (|n: nat| Seq::new(n, |i: int| pat_entry(section@, i))),
            out@ == entries(done as nat).filter(keep),
        decreases end - offset,
    {
        let program_number: u16 = read_be16(section[offset], section[offset + 1]);
        let pid: u16 = read_be13(section[offset + 2], section[offset + 3]);
        if program_number != 0 {
            out.push((program_number, pid));
        }
        proof {
            reveal(Seq::filter);
            let next = entries((done + 1) as nat);
            assert(next.drop_last() =~= entries(done as nat));
            assert(next.last() == (program_number, pid));
            done = done + 1;
        }
        offset += 4;
    }
    Ok(out)
}

/// The program number in the head of a program map table.
pub fn pmt_program_number(section: &[u8]) -> (number: Option<u16>)
    ensures
        number == (if section@.len() >= 5 && section@[0] == 0x02 {
            Some(be16(section@[3], section@[4]) as u16)
        } else {
            None
        }),
{
    if section.len() >= 5 && section[0] == 0x02 {
        Some(read_be16(section[3], section[4]))
    } else {
        None
    }
}

/// The streams in the loop of a program map table from `offset` to `end`.
/// `None` where descriptors reach past `end`.
pub open spec fn pmt_loop(program: u16, section: Seq<u8>, offset: int, end: int) -> Option<
    Seq<StreamInfo>,
>
    decreases end - offset,
{
    if offset + 5 > end {
        Some(Seq::empty())
    } else {
        let len = be12(section[offset + 3], section[offset + 4]);
        if offset + 5 + len > end {
            None
        } else {
            let stream = StreamInfo {
                program_number: program,
                pid: be13(section[offset + 1], section[offset + 2]) as u16,
                kind: kind_of(section[offset], section.subrange(offset + 5, offset + 5 + len)),
            };
            match pmt_loop(program, section, offset + 5 + len, end) {
                Some(rest) => Some(seq![stream] + rest),
                None => None,
            }
        }
    }
}

/// Where the stream loop of a program map table begins.
pub open spec fn pmt_loop_start(section: Seq<u8>) -> int {
    12 + be12(section[10], section[11])
}

/// What a section says as the program map table of `program`.
pub open spec fn pmt_streams(program: u16, section: Seq<u8>) -> Result<Seq<StreamInfo>, DemuxError> {
    if section.len() < 16 || section[0] != 0x02 {
        Ok(Seq::empty())
    } else if declared_len(section) > section.len() || declared_len(section) < 16 {
        Err(DemuxError::PmtLength)
    } else {
        match pmt_loop(program, section, pmt_loop_start(section), declared_len(section) - 4) {
            Some(streams) => Ok(streams),
            None => Err(DemuxError::PmtDescriptorLength),
        }
    }
}

/// Reads a program map table: the streams of the program. Any other section
/// has none. Fails where the table does not hold the length it declares, or
/// where descriptors reach past it.
pub fn parse_pmt(program_number: u16, section: &[u8]) -> (result: Result<
    Vec<StreamInfo>,
    DemuxError,
>)
    ensures
        match pmt_streams(program_number, section@) {
            Ok(s) => result matches Ok(streams) && streams@ == s,
            Err(e) => result matches Err(err) && err == e,
        },
{
    let mut streams: Vec<StreamInfo> = Vec::new();
    if section.len() < 16 || section[0] != 0x02 {
        return Ok(streams);
    }
    let total: usize = 3 + read_be12(section[1], section[2]);
    if total > section.len() || total < 16 {
        return Err(DemuxError::PmtLength);
    }
    let mut offset: usize = 12 + read_be12(section[10], section[11]);
    let end: usize = total - 4;
    let ghost whole = pmt_loop(program_number, section@, offset as int, end as int);
    proof {
        if let Some(rest) = whole {
            assert(rest =~= streams@ + rest);
        }
    }
    while offset + 5 <= end
        invariant
            end <= section@.len(),
            end <= 4098,
            offset <= 12000,
            match pmt_loop(program_number, section@, offset as int, end as int) {
                Some(rest) => whole == Some(streams@ + rest),
                None => whole is None,
            },
            section@.len() >= 16,
            section@[0] == 0x02,
            16 <= declared_len(section@) <= section@.len(),
            end == declared_len(section@) - 4,
            whole == pmt_loop(program_number, section@, pmt_loop_start(section@), end as int),
        decreases end - offset,
    {
        let stream_type: u8 = section[offset];
        let pid: u16 = read_be13(section[offset + 1], section[offset + 2]);
        let es_info_len: usize = read_be12(section[offset + 3], section[offset + 4]);
        if offset + 5 + es_info_len > end {
            return Err(DemuxError::PmtDescriptorLength);
        }
        let descriptors = slice_subrange(section, offset + 5, offset + 5 + es_info_len);
        let kind = StreamKind::from_stream_type(stream_type, descriptors);
        let stream = StreamInfo { program_number, pid, kind };
        let ghost before = streams@;
        streams.push(stream);
        proof {
            let after = pmt_loop(
                program_number,
                section@,
                offset + 5 + es_info_len,
                end as int,
            );
            if let Some(rest) = after {
                assert(before + (seq![stream] + rest) =~= streams@ + rest);
            }
        }
        offset = offset + 5 + es_info_len;
    }
    proof {
        assert(streams@ + Seq::<StreamInfo>::empty() =~= streams@);
    }
    Ok(streams)
}

} // verus!
