//! What reading tables promises.

use vstd::prelude::*;

use crate::bytes::be12;
use crate::bytes::be13;
use crate::bytes::joined;
use crate::bytes::lemma_joined_concat;
use crate::error::DemuxError;
use crate::psi::cut_sections;
use crate::psi::declared_len;
use crate::psi::kind_of;
use crate::psi::kind_of_tag;
use crate::psi::pat_entry;
use crate::psi::pat_result;
use crate::psi::pmt_loop;
use crate::psi::pmt_streams;
use crate::psi::private_kind;
use crate::psi::pushed;
use crate::psi::Cut;
use crate::psi::StreamInfo;
use crate::psi::StreamKind;

verus! {

/// Nothing of the buffer was dropped, neither as stuffing nor for its length.
pub open spec fn nothing_dropped(buffer: Seq<u8>) -> bool {
    let cut = cut_sections(buffer);
    cut.invalid is None && joined(cut.sections) + cut.rest == buffer
}

/// Cutting sections in two steps is cutting them in one.
proof fn lemma_cut_in_steps(a: Seq<u8>, b: Seq<u8>)
    requires
        nothing_dropped(a),
    ensures
        cut_sections(a + b) == (Cut {
            sections: cut_sections(a).sections + cut_sections(cut_sections(a).rest + b).sections,
            rest: cut_sections(cut_sections(a).rest + b).rest,
            invalid: cut_sections(cut_sections(a).rest + b).invalid,
        }),
    decreases a.len(),
{
    let cut = cut_sections(a);
    let total = declared_len(a);
    if a.len() < 3 || a.len() < total {
        assert(cut.sections =~= Seq::<Seq<u8>>::empty());
        assert(joined(cut.sections) =~= Seq::<u8>::empty());
        assert(joined(cut.sections) + cut.rest =~= cut.rest);
        assert(cut.rest == a);
        assert(cut.sections + cut_sections(a + b).sections =~= cut_sections(a + b).sections);
    } else {
        assert(joined(Seq::<Seq<u8>>::empty()) =~= Seq::<u8>::empty());
        assert(a[0] != 0xFF);
        let after = cut_sections(a.skip(total));
        assert(cut.sections.drop_first() =~= after.sections);
        assert(joined(cut.sections) == a.take(total) + joined(after.sections));
        assert(a.skip(total) =~= joined(after.sections) + after.rest) by {
            assert((a.take(total) + joined(after.sections) + after.rest).skip(total) =~= joined(
                after.sections,
            ) + after.rest);
        }
        lemma_cut_in_steps(a.skip(total), b);
        assert((a + b).skip(total) =~= a.skip(total) + b);
        assert((a + b).take(total) =~= a.take(total));
        assert(declared_len(a + b) == total);
        let end = cut_sections(after.rest + b);
        assert(seq![a.take(total)] + (after.sections + end.sections) =~= cut.sections
            + end.sections);
    }
}

/// A table that is cut between two packets reads as if it were not: the
/// sections come out in the same order, and the same is left over. This holds
/// as long as the first part does not end in stuffing, which is dropped.
pub proof fn law_table_in_pieces(buffer: Seq<u8>, a: Seq<u8>, b: Seq<u8>)
    requires
        nothing_dropped(a),
        b.len() > 0,
    ensures
        ({
            let first = pushed(buffer, true, seq![0u8] + a);
            let second = pushed(first.rest, false, b);
            let whole = pushed(buffer, true, seq![0u8] + a + b);
            &&& whole.sections == first.sections + second.sections
            &&& whole.rest == second.rest
            &&& whole.invalid == second.invalid
        }),
{
    lemma_cut_in_steps(a, b);
    assert((seq![0u8] + a).skip(1) =~= a);
    assert((seq![0u8] + a + b).skip(1) =~= a + b);
}

/// A section as it stands in a table: not stuffing, of 7 to 4096 bytes, and as
/// long as it says.
pub open spec fn is_whole_section(section: Seq<u8>) -> bool {
    &&& 7 <= section.len() <= 4096
    &&& section[0] != 0xFF
    &&& section.len() == 3 + (section[1] % 16) * 256 + section[2]
}

/// Sections that stand one after the other in a payload come out one by one, in
/// their order, whatever the pointer field skips. What follows them is kept for
/// the next payload where it is too short to tell, and dropped where it is
/// stuffing.
pub proof fn law_sections_come_out(
    buffer: Seq<u8>,
    skipped: Seq<u8>,
    sections: Seq<Seq<u8>>,
    tail: Seq<u8>,
)
    requires
        skipped.len() <= 255,
        forall|i: int| 0 <= i < sections.len() ==> is_whole_section(#[trigger] sections[i]),
        tail.len() < 3 || tail[0] == 0xFF,
    ensures
        pushed(buffer, true, seq![skipped.len() as u8] + skipped + joined(sections) + tail) == (Cut {
            sections,
            rest: if tail.len() < 3 {
                tail
            } else {
                Seq::empty()
            },
            invalid: None,
        }),
{
    let payload = seq![skipped.len() as u8] + skipped + joined(sections) + tail;
    assert(payload.skip(1 + skipped.len() as int) =~= joined(sections) + tail);
    lemma_sections_come_out(sections, tail);
}

/// Whole sections are cut one by one.
proof fn lemma_sections_come_out(sections: Seq<Seq<u8>>, tail: Seq<u8>)
    requires
        forall|i: int| 0 <= i < sections.len() ==> is_whole_section(#[trigger] sections[i]),
        tail.len() < 3 || tail[0] == 0xFF,
    ensures
        cut_sections(joined(sections) + tail) == (Cut {
            sections,
            rest: if tail.len() < 3 {
                tail
            } else {
                Seq::empty()
            },
            invalid: None,
        }),
    decreases sections.len(),
{
    let buffer = joined(sections) + tail;
    if sections.len() == 0 {
        assert(buffer =~= tail);
        assert(sections =~= Seq::<Seq<u8>>::empty());
    } else {
        let first = sections[0];
        let others = sections.drop_first();
        assert forall|i: int| 0 <= i < others.len() implies is_whole_section(
            #[trigger] others[i],
        ) by {
            assert(others[i] == sections[i + 1]);
        }
        lemma_sections_come_out(others, tail);
        assert(is_whole_section(first));
        assert(buffer[0] == first[0] && buffer[1] == first[1] && buffer[2] == first[2]);
        assert(buffer.take(first.len() as int) =~= first);
        assert(buffer.skip(first.len() as int) =~= joined(others) + tail);
        assert(seq![first] + others =~= sections);
    }
}

/// What a list of payloads makes of a buffer: the sections that come out, and
/// what is left. The first payload begins a section.
pub open spec fn pushed_all(payloads: Seq<Seq<u8>>) -> Cut
    decreases payloads.len(),
{
    if payloads.len() == 0 {
        Cut { sections: Seq::empty(), rest: Seq::empty(), invalid: None }
    } else {
        let before = pushed_all(payloads.drop_last());
        let last = pushed(before.rest, payloads.len() == 1, payloads.last());
        Cut {
            sections: before.sections + last.sections,
            rest: last.rest,
            invalid: if before.invalid is Some {
                before.invalid
            } else {
                last.invalid
            },
        }
    }
}

/// A section comes out whole however it is cut into payloads, with the last of
/// them and not before.
pub proof fn law_section_in_any_pieces(first: Seq<u8>, more: Seq<Seq<u8>>)
    requires
        is_whole_section(first + joined(more)),
        forall|i: int| 0 <= i < more.len() ==> (#[trigger] more[i]).len() > 0,
    ensures
        pushed_all(seq![seq![0u8] + first] + more) == (Cut {
            sections: seq![first + joined(more)],
            rest: Seq::empty(),
            invalid: None,
        }),
{
    let whole = first + joined(more);
    lemma_pieces_so_far(whole, first, more, more.len() as int, Seq::empty());
    assert(more.take(more.len() as int) =~= more);
    assert(first + joined(more) + Seq::<u8>::empty() =~= whole);
}

/// What has come out when some of the pieces have arrived.
proof fn lemma_pieces_so_far(
    whole: Seq<u8>,
    first: Seq<u8>,
    more: Seq<Seq<u8>>,
    count: int,
    missing: Seq<u8>,
)
    requires
        is_whole_section(whole),
        0 <= count <= more.len(),
        first + joined(more.take(count)) + missing == whole,
        forall|i: int| 0 <= i < more.len() ==> (#[trigger] more[i]).len() > 0,
    ensures
        ({
            let so_far = first + joined(more.take(count));
            pushed_all(seq![seq![0u8] + first] + more.take(count)) == (if missing.len() == 0 {
                Cut { sections: seq![whole], rest: Seq::empty(), invalid: None }
            } else {
                Cut { sections: Seq::empty(), rest: so_far, invalid: None }
            })
        }),
    decreases count,
{
    let so_far = first + joined(more.take(count));
    let payloads = seq![seq![0u8] + first] + more.take(count);
    let none = Seq::<Seq<u8>>::empty();
    assert forall|buffer: Seq<u8>| #[trigger] buffer.is_prefix_of(whole) implies cut_sections(buffer)
        == (if buffer == whole {
        Cut { sections: seq![whole], rest: Seq::empty(), invalid: None }
    } else {
        Cut { sections: none, rest: buffer, invalid: None }
    }) by {
        if buffer.len() >= 3 {
            assert(buffer[0] == whole[0] && buffer[1] == whole[1] && buffer[2] == whole[2]);
        }
        if buffer.len() == whole.len() {
            assert(buffer =~= whole);
            assert(buffer.skip(whole.len() as int) =~= Seq::<u8>::empty());
            assert(buffer.take(whole.len() as int) =~= whole);
            assert(cut_sections(Seq::<u8>::empty()).sections =~= none);
            assert(seq![whole] + none =~= seq![whole]);
        }
    }
    assert(so_far.is_prefix_of(whole));
    assert(missing.len() == 0 <==> so_far == whole) by {
        assert(whole.len() == so_far.len() + missing.len());
        if missing.len() == 0 {
            assert(so_far =~= whole);
        }
    }
    if count == 0 {
        reveal_with_fuel(pushed_all, 2);
        assert(joined(more.take(0)) =~= Seq::<u8>::empty());
        assert(so_far =~= first);
        assert(payloads =~= seq![seq![0u8] + first]);
        assert(payloads.drop_last() =~= none);
        assert((seq![0u8] + first).skip(1) =~= first);
        assert(none + none =~= none);
        assert(none + seq![whole] =~= seq![whole]);
    } else {
        let head = more.take(count - 1);
        let piece = more[count - 1];
        assert(more.take(count) =~= head + seq![piece]);
        lemma_joined_concat(head, seq![piece]);
        reveal_with_fuel(joined, 2);
        assert(joined(seq![piece]) =~= piece);
        assert(first + joined(head) + (piece + missing) =~= whole);
        lemma_pieces_so_far(whole, first, more, count - 1, piece + missing);
        assert(payloads.drop_last() =~= seq![seq![0u8] + first] + head);
        assert(payloads.last() == piece);
        assert(first + joined(head) + piece =~= so_far);
        assert(none + none =~= none);
        assert(none + seq![whole] =~= seq![whole]);
    }
}

/// A section that claims a length that none has is refused.
pub proof fn law_impossible_section_is_refused(buffer: Seq<u8>, section: Seq<u8>)
    requires
        section.len() >= 3,
        section[0] != 0xFF,
        ({
            let length = (section[1] % 16) * 256 + section[2];
            length < 4 || length > 4093
        }),
    ensures
        pushed(buffer, true, seq![0u8] + section).invalid == Some(
            ((section[1] % 16) * 256 + section[2]) as usize,
        ),
{
    assert((seq![0u8] + section).skip(1) =~= section);
}

/// One program in a program association table: its number, the identifier of
/// its map table, and the three bits before that.
pub struct PatEntry {
    pub program: u16,
    pub pid: u16,
    pub reserved: u8,
}

/// The four bytes of an entry.
pub open spec fn pat_entry_bytes(entry: PatEntry) -> Seq<u8> {
    seq![
        (entry.program / 256) as u8,
        (entry.program % 256) as u8,
        (32 * entry.reserved + entry.pid / 256) as u8,
        (entry.pid % 256) as u8,
    ]
}

/// The bytes of a list of entries.
pub open spec fn pat_loop_bytes(entries: Seq<PatEntry>) -> Seq<u8> {
    joined(entries.map_values(|e: PatEntry| pat_entry_bytes(e)))
}

/// The entries have values that fit.
pub open spec fn fit_pat(entries: Seq<PatEntry>) -> bool {
    forall|i: int|
        0 <= i < entries.len() ==> (#[trigger] entries[i]).pid < 8192 && entries[i].reserved < 8
}

/// Where the entries of a list stand.
proof fn lemma_pat_loop(entries: Seq<PatEntry>)
    ensures
        pat_loop_bytes(entries).len() == 4 * entries.len(),
        forall|i: int, k: int|
            0 <= i < entries.len() && 0 <= k < 4 ==> pat_loop_bytes(entries)[4 * i + k]
                == #[trigger] pat_entry_bytes(entries[i])[k],
    decreases entries.len(),
{
    let bytes = |e: PatEntry| pat_entry_bytes(e);
    if entries.len() == 0 {
        assert(entries.map_values(bytes) =~= Seq::<Seq<u8>>::empty());
    } else {
        let others = entries.drop_first();
        lemma_pat_loop(others);
        assert(entries.map_values(bytes).drop_first() =~= others.map_values(bytes));
        assert(pat_loop_bytes(entries) =~= pat_entry_bytes(entries[0]) + pat_loop_bytes(others));
        assert forall|i: int, k: int| 0 <= i < entries.len() && 0 <= k < 4 implies pat_loop_bytes(
            entries,
        )[4 * i + k] == #[trigger] pat_entry_bytes(entries[i])[k] by {
            if i > 0 {
                assert(others[i - 1] == entries[i]);
                assert(pat_loop_bytes(others)[4 * (i - 1) + k] == pat_entry_bytes(
                    others[i - 1],
                )[k]);
            }
        }
    }
}

/// A program association table reads as it was written: its programs, in
/// order, each with the identifier of its map table. The entry with number
/// zero, which is for the network, is no program.
pub proof fn law_written_pat_reads_back(
    mark: u8,
    head: Seq<u8>,
    entries: Seq<PatEntry>,
    crc: Seq<u8>,
    after: Seq<u8>,
)
    requires
        mark < 16,
        head.len() == 5,
        crc.len() == 4,
        fit_pat(entries),
        9 + 4 * entries.len() <= 4095,
    ensures
        ({
            let length = 9 + 4 * entries.len();
            let section = seq![
                0x00u8,
                (16 * mark + length / 256) as u8,
                (length % 256) as u8,
            ] + head + pat_loop_bytes(entries) + crc + after;
            pat_result(section) == Ok::<Seq<(u16, u16)>, DemuxError>(
                entries.map_values(|e: PatEntry| (e.program, e.pid)).filter(
                    |e: (u16, u16)| e.0 != 0,
                ),
            )
        }),
{
    let length = 9 + 4 * entries.len() as int;
    let front = seq![0x00u8, (16 * mark + length / 256) as u8, (length % 256) as u8] + head;
    let section = front + pat_loop_bytes(entries) + crc + after;
    lemma_pat_loop(entries);
    assert(section[0] == front[0] && section[1] == front[1] && section[2] == front[2]);
    assert(section =~= seq![
        0x00u8,
        (16 * mark + length / 256) as u8,
        (length % 256) as u8,
    ] + head + pat_loop_bytes(entries) + crc + after);
    assert(declared_len(section) == 3 + length);
    let listed = Seq::new(
        ((declared_len(section) - 12) / 4) as nat,
        |i: int| pat_entry(section, i),
    );
    let meant = entries.map_values(|e: PatEntry| (e.program, e.pid));
    assert(listed.len() == entries.len());
    assert forall|i: int| 0 <= i < entries.len() implies listed[i] == meant[i] by {
        let e = entries[i];
        let b = pat_entry_bytes(e);
        let all = pat_loop_bytes(entries);
        assert(all[4 * i + 0] == b[0]);
        assert(all[4 * i + 1] == b[1]);
        assert(all[4 * i + 2] == b[2]);
        assert(all[4 * i + 3] == b[3]);
        assert(section[8 + 4 * i] == b[0]);
        assert(section[8 + 4 * i + 1] == b[1]);
        assert(section[8 + 4 * i + 2] == b[2]);
        assert(section[8 + 4 * i + 3] == b[3]);
        assert(e.pid < 8192 && e.reserved < 8);
    }
    assert(listed =~= meant);
}

/// One stream in a program map table: its type, its identifier, its
/// descriptors, and the bits before the identifier and before the length.
pub struct PmtEntry {
    pub stream_type: u8,
    pub pid: u16,
    pub descriptors: Seq<u8>,
    pub reserved: (u8, u8),
}

/// The bytes of an entry.
pub open spec fn pmt_entry_bytes(entry: PmtEntry) -> Seq<u8> {
    seq![
        entry.stream_type,
        (32 * entry.reserved.0 + entry.pid / 256) as u8,
        (entry.pid % 256) as u8,
        (16 * entry.reserved.1 + entry.descriptors.len() / 256) as u8,
        (entry.descriptors.len() % 256) as u8,
    ] + entry.descriptors
}

/// The bytes of a list of entries.
pub open spec fn pmt_loop_bytes(entries: Seq<PmtEntry>) -> Seq<u8> {
    joined(entries.map_values(|e: PmtEntry| pmt_entry_bytes(e)))
}

/// The entries have values that fit.
pub open spec fn fit_pmt(entries: Seq<PmtEntry>) -> bool {
    forall|i: int|
        0 <= i < entries.len() ==> (#[trigger] entries[i]).pid < 8192 && entries[i].reserved.0 < 8
            && entries[i].reserved.1 < 16 && entries[i].descriptors.len() < 4096
}

/// The streams that a list of entries announces.
pub open spec fn announced_streams(program: u16, entries: Seq<PmtEntry>) -> Seq<StreamInfo> {
    entries.map_values(
        |e: PmtEntry|
            StreamInfo {
                program_number: program,
                pid: e.pid,
                kind: kind_of(e.stream_type, e.descriptors),
            },
    )
}

/// Numbers come back from the two bytes they were put into, whatever bits
/// precede them.
proof fn lemma_fields(pid: u16, len: int, reserved: (u8, u8))
    requires
        pid < 8192,
        0 <= len < 4096,
        reserved.0 < 8,
        reserved.1 < 16,
    ensures
        be13((32 * reserved.0 + pid / 256) as u8, (pid % 256) as u8) == pid,
        be12((16 * reserved.1 + len / 256) as u8, (len % 256) as u8) == len,
{
}

/// An entry is read, and reading goes on behind it.
proof fn lemma_pmt_entry(
    program: u16,
    before: Seq<u8>,
    e: PmtEntry,
    after: Seq<u8>,
    end: int,
)
    requires
        fit_pmt(seq![e]),
        before.len() + pmt_entry_bytes(e).len() <= end,
    ensures
        ({
            let section = before + pmt_entry_bytes(e) + after;
            let stream = StreamInfo {
                program_number: program,
                pid: e.pid,
                kind: kind_of(e.stream_type, e.descriptors),
            };
            let rest = before.len() + pmt_entry_bytes(e).len();
            pmt_loop(program, section, before.len() as int, end) == (match pmt_loop(
                program,
                section,
                rest as int,
                end,
            ) {
                Some(more) => Some(seq![stream] + more),
                None => None,
            })
        }),
{
    let b = pmt_entry_bytes(e);
    let section = before + b + after;
    let offset = before.len() as int;
    let n = e.descriptors.len() as int;
    assert(seq![e][0] == e);
    lemma_fields(e.pid, n, e.reserved);
    assert(b.len() == 5 + n);
    assert(section[offset] == b[0]);
    assert(section[offset + 1] == b[1]);
    assert(section[offset + 2] == b[2]);
    assert(section[offset + 3] == b[3]);
    assert(section[offset + 4] == b[4]);
    assert(section.subrange(offset + 5, offset + 5 + n) =~= e.descriptors);
}

/// The entries of a list are read one after the other.
proof fn lemma_pmt_loop(
    program: u16,
    before: Seq<u8>,
    entries: Seq<PmtEntry>,
    after: Seq<u8>,
    end: int,
)
    requires
        fit_pmt(entries),
        before.len() + pmt_loop_bytes(entries).len() <= end,
    ensures
        ({
            let section = before + pmt_loop_bytes(entries) + after;
            let rest = before.len() + pmt_loop_bytes(entries).len();
            pmt_loop(program, section, before.len() as int, end) == (match pmt_loop(
                program,
                section,
                rest as int,
                end,
            ) {
                Some(more) => Some(announced_streams(program, entries) + more),
                None => None,
            })
        }),
    decreases entries.len(),
{
    let bytes = |e: PmtEntry| pmt_entry_bytes(e);
    let section = before + pmt_loop_bytes(entries) + after;
    let offset = before.len() as int;
    if entries.len() == 0 {
        assert(entries.map_values(bytes) =~= Seq::<Seq<u8>>::empty());
        assert(pmt_loop_bytes(entries).len() == 0);
        if let Some(more) = pmt_loop(program, section, offset, end) {
            assert(announced_streams(program, entries) + more =~= more);
        }
    } else {
        let e = entries[0];
        let b = pmt_entry_bytes(e);
        let others = entries.drop_first();
        assert(entries.map_values(bytes).drop_first() =~= others.map_values(bytes));
        assert(pmt_loop_bytes(entries) =~= b + pmt_loop_bytes(others));
        assert(section =~= (before + b) + pmt_loop_bytes(others) + after);
        assert(fit_pmt(others)) by {
            assert forall|i: int| 0 <= i < others.len() implies (#[trigger] others[i]).pid < 8192
                && others[i].reserved.0 < 8 && others[i].reserved.1 < 16
                && others[i].descriptors.len() < 4096 by {
                assert(others[i] == entries[i + 1]);
            }
        }
        lemma_pmt_loop(program, before + b, others, after, end);
        assert(section =~= before + b + (pmt_loop_bytes(others) + after));
        assert(entries[0].pid < 8192);
        lemma_pmt_entry(program, before, e, pmt_loop_bytes(others) + after, end);
        let stream = announced_streams(program, entries)[0];
        assert(announced_streams(program, entries) =~= seq![stream] + announced_streams(
            program,
            others,
        ));
        let rest = offset + pmt_loop_bytes(entries).len();
        if let Some(more) = pmt_loop(program, section, rest, end) {
            assert(seq![stream] + (announced_streams(program, others) + more)
                =~= announced_streams(program, entries) + more);
        }
    }
}

/// The first twelve bytes of a program map table: `length` bytes follow the
/// third, and `info` bytes of program descriptors follow the head.
pub open spec fn pmt_head(marks: (u8, u8), middle: Seq<u8>, length: int, info: int) -> Seq<u8> {
    seq![0x02u8, (16 * marks.0 + length / 256) as u8, (length % 256) as u8] + middle + seq![
        (16 * marks.1 + info / 256) as u8,
        (info % 256) as u8,
    ]
}

/// What the head of a program map table says.
proof fn lemma_pmt_head(
    program: u16,
    marks: (u8, u8),
    middle: Seq<u8>,
    length: int,
    info: int,
    body: Seq<u8>,
)
    requires
        marks.0 < 16,
        marks.1 < 16,
        middle.len() == 7,
        13 <= length <= 4095,
        0 <= info < 4096,
        12 + body.len() >= 3 + length,
    ensures
        ({
            let section = pmt_head(marks, middle, length, info) + body;
            pmt_streams(program, section) == (match pmt_loop(
                program,
                section,
                12 + info,
                length - 1,
            ) {
                Some(streams) => Ok::<Seq<StreamInfo>, DemuxError>(streams),
                None => Err(DemuxError::PmtDescriptorLength),
            })
        }),
{
    let head = pmt_head(marks, middle, length, info);
    let section = head + body;
    lemma_fields(0, length, (0, marks.0));
    lemma_fields(0, info, (0, marks.1));
    assert(head.len() == 12);
    assert(section[0] == head[0]);
    assert(section[1] == head[1]);
    assert(section[2] == head[2]);
    assert(section[10] == head[10]);
    assert(section[11] == head[11]);
}

/// A program map table reads as it was written: its streams, in order, each
/// with its identifier and kind, whatever the descriptors of the program are.
#[verifier::rlimit(40)]
pub proof fn law_written_pmt_reads_back(
    program: u16,
    marks: (u8, u8),
    middle: Seq<u8>,
    info: Seq<u8>,
    entries: Seq<PmtEntry>,
    crc: Seq<u8>,
    after: Seq<u8>,
)
    requires
        marks.0 < 16,
        marks.1 < 16,
        middle.len() == 7,
        crc.len() == 4,
        fit_pmt(entries),
        13 + info.len() + pmt_loop_bytes(entries).len() <= 4095,
    ensures
        ({
            let length = 13 + info.len() + pmt_loop_bytes(entries).len();
            let head = pmt_head(marks, middle, length as int, info.len() as int);
            let section = head + info + pmt_loop_bytes(entries) + crc + after;
            pmt_streams(program, section) == Ok::<Seq<StreamInfo>, DemuxError>(
                announced_streams(program, entries),
            )
        }),
{
    let length = 13 + info.len() + pmt_loop_bytes(entries).len() as int;
    let head = pmt_head(marks, middle, length, info.len() as int);
    let section = head + info + pmt_loop_bytes(entries) + crc + after;
    let end = length - 1;
    assert(section =~= (head + info) + pmt_loop_bytes(entries) + (crc + after));
    lemma_pmt_loop(program, head + info, entries, crc + after, end);
    let body = info + pmt_loop_bytes(entries) + crc + after;
    lemma_pmt_head(program, marks, middle, length, info.len() as int, body);
    assert(section =~= head + body);
    assert(announced_streams(program, entries) + Seq::<StreamInfo>::empty() =~= announced_streams(
        program,
        entries,
    ));
}

/// A program map table in which the descriptors of a stream reach past its end
/// is refused, whatever streams precede that one.
#[verifier::rlimit(40)]
pub proof fn law_overlong_descriptors_are_refused(
    program: u16,
    marks: (u8, u8),
    middle: Seq<u8>,
    info: Seq<u8>,
    entries: Seq<PmtEntry>,
    last: Seq<u8>,
    crc: Seq<u8>,
)
    requires
        marks.0 < 16,
        marks.1 < 16,
        middle.len() == 7,
        crc.len() == 4,
        fit_pmt(entries),
        last.len() >= 5,
        5 + (last[3] % 16) * 256 + last[4] > last.len(),
        13 + info.len() + pmt_loop_bytes(entries).len() + last.len() <= 4095,
    ensures
        ({
            let length = 13 + info.len() + pmt_loop_bytes(entries).len() + last.len();
            let head = pmt_head(marks, middle, length as int, info.len() as int);
            let section = head + info + pmt_loop_bytes(entries) + last + crc;
            pmt_streams(program, section) == Err::<Seq<StreamInfo>, DemuxError>(
                DemuxError::PmtDescriptorLength,
            )
        }),
{
    let length = 13 + info.len() + pmt_loop_bytes(entries).len() + last.len() as int;
    let head = pmt_head(marks, middle, length, info.len() as int);
    let section = head + info + pmt_loop_bytes(entries) + last + crc;
    let end = length - 1;
    assert(section =~= (head + info) + pmt_loop_bytes(entries) + (last + crc));
    lemma_pmt_loop(program, head + info, entries, last + crc, end);
    let body = info + pmt_loop_bytes(entries) + last + crc;
    lemma_pmt_head(program, marks, middle, length, info.len() as int, body);
    assert(section =~= head + body);
    let rest = 12 + info.len() + pmt_loop_bytes(entries).len() as int;
    assert(section[rest + 3] == last[3]);
    assert(section[rest + 4] == last[4]);
}

/// A table that does not hold the length it declares, or declares less than any
/// such table has, is refused; a section of another kind announces nothing.
pub proof fn law_cut_tables_are_refused(program: u16, section: Seq<u8>)
    requires
        section.len() >= 16,
    ensures
        ({
            let total = 3 + (section[1] % 16) * 256 + section[2];
            &&& section[0] == 0x00 && (total > section.len() || total < 12) ==> pat_result(section)
                == Err::<Seq<(u16, u16)>, DemuxError>(DemuxError::PatLength)
            &&& section[0] == 0x02 && (total > section.len() || total < 16) ==> pmt_streams(
                program,
                section,
            ) == Err::<Seq<StreamInfo>, DemuxError>(DemuxError::PmtLength)
            &&& section[0] != 0x00 ==> pat_result(section) == Ok::<Seq<(u16, u16)>, DemuxError>(
                Seq::empty(),
            )
            &&& section[0] != 0x02 ==> pmt_streams(program, section) == Ok::<
                Seq<StreamInfo>,
                DemuxError,
            >(Seq::empty())
        }),
{
}

/// The kind of a stream follows from its type alone where that tells it,
/// whatever its descriptors are.
pub proof fn law_type_decides_kind(descriptors: Seq<u8>)
    ensures
        kind_of(0x01, descriptors) == Some(StreamKind::Mpeg1Video),
        kind_of(0x02, descriptors) == Some(StreamKind::Mpeg2Video),
        kind_of(0x03, descriptors) == Some(StreamKind::Mp3),
        kind_of(0x04, descriptors) == Some(StreamKind::Mp3),
        kind_of(0x0F, descriptors) == Some(StreamKind::Aac),
        kind_of(0x1B, descriptors) == Some(StreamKind::H264),
        kind_of(0x24, descriptors) == Some(StreamKind::H265),
        kind_of(0x80, descriptors) == Some(StreamKind::Lpcm),
        kind_of(0x81, descriptors) == Some(StreamKind::Ac3),
        kind_of(0x87, descriptors) == Some(StreamKind::EAc3),
{
}

/// Whether a stream type tells a kind by itself.
pub open spec fn is_telling_type(stream_type: u8) -> bool {
    ||| 0x01 <= stream_type <= 0x04
    ||| stream_type == 0x0F
    ||| stream_type == 0x1B
    ||| stream_type == 0x24
    ||| stream_type == 0x80
    ||| stream_type == 0x81
    ||| stream_type == 0x87
}

/// Whether a descriptor tag tells a kind.
pub open spec fn is_telling_tag(tag: u8) -> bool {
    tag == 0x56 || tag == 0x59 || tag == 0x6A || tag == 0x7A
}

/// The bytes of a list of descriptors, each a tag and what follows its length.
pub open spec fn descriptor_bytes(list: Seq<(u8, Seq<u8>)>) -> Seq<u8> {
    joined(list.map_values(|d: (u8, Seq<u8>)| seq![d.0, d.1.len() as u8] + d.1))
}

/// The kind of any other stream is told by the first descriptor whose tag tells
/// one, whatever precedes and follows that, and by nothing else.
pub proof fn law_descriptors_decide_kind(
    stream_type: u8,
    list: Seq<(u8, Seq<u8>)>,
    body: Seq<u8>,
    after: Seq<u8>,
)
    requires
        !is_telling_type(stream_type),
        forall|i: int|
            0 <= i < list.len() ==> !is_telling_tag((#[trigger] list[i]).0) && list[i].1.len()
                <= 255,
        body.len() <= 255,
    ensures
        ({
            let told = |tag: u8|
                kind_of(
                    stream_type,
                    descriptor_bytes(list) + seq![tag, body.len() as u8] + body + after,
                );
            &&& told(0x56) == Some(StreamKind::Teletext)
            &&& told(0x59) == Some(StreamKind::DvbSubtitle)
            &&& told(0x6A) == Some(StreamKind::Ac3)
            &&& told(0x7A) == Some(StreamKind::EAc3)
        }),
        kind_of(stream_type, descriptor_bytes(list)) is None,
{
    lemma_telling_descriptor(list, 0x56, body, after);
    lemma_telling_descriptor(list, 0x59, body, after);
    lemma_telling_descriptor(list, 0x6A, body, after);
    lemma_telling_descriptor(list, 0x7A, body, after);
    lemma_descriptors_passed(list, Seq::empty());
    assert(descriptor_bytes(list) + Seq::<u8>::empty() =~= descriptor_bytes(list));
}

/// A descriptor that does not fit into its list tells nothing.
pub proof fn law_cut_descriptor_tells_nothing(stream_type: u8, descriptors: Seq<u8>)
    requires
        !is_telling_type(stream_type),
        descriptors.len() < 2 || 2 + descriptors[1] > descriptors.len(),
    ensures
        kind_of(stream_type, descriptors) is None,
{
}

/// Descriptors that tell nothing are passed over.
proof fn lemma_descriptors_passed(list: Seq<(u8, Seq<u8>)>, after: Seq<u8>)
    requires
        forall|i: int|
            0 <= i < list.len() ==> !is_telling_tag((#[trigger] list[i]).0) && list[i].1.len()
                <= 255,
    ensures
        private_kind(descriptor_bytes(list) + after) == private_kind(after),
    decreases list.len(),
{
    let bytes = |d: (u8, Seq<u8>)| seq![d.0, d.1.len() as u8] + d.1;
    if list.len() == 0 {
        assert(list.map_values(bytes) =~= Seq::<Seq<u8>>::empty());
        assert(descriptor_bytes(list) + after =~= after);
    } else {
        let others = list.drop_first();
        assert forall|i: int| 0 <= i < others.len() implies !is_telling_tag(
            (#[trigger] others[i]).0,
        ) && others[i].1.len() <= 255 by {
            assert(others[i] == list[i + 1]);
        }
        lemma_descriptors_passed(others, after);
        let first = bytes(list[0]);
        assert(list.map_values(bytes).drop_first() =~= others.map_values(bytes));
        assert(descriptor_bytes(list) =~= first + descriptor_bytes(others));
        let all = descriptor_bytes(list) + after;
        assert(!is_telling_tag(list[0].0) && list[0].1.len() <= 255);
        assert(all[0] == list[0].0);
        assert(all[1] == first[1]);
        assert(all.skip(2 + list[0].1.len() as int) =~= descriptor_bytes(others) + after);
    }
}

/// The first telling descriptor decides.
proof fn lemma_telling_descriptor(
    list: Seq<(u8, Seq<u8>)>,
    tag: u8,
    body: Seq<u8>,
    after: Seq<u8>,
)
    requires
        forall|i: int|
            0 <= i < list.len() ==> !is_telling_tag((#[trigger] list[i]).0) && list[i].1.len()
                <= 255,
        body.len() <= 255,
        is_telling_tag(tag),
    ensures
        private_kind(descriptor_bytes(list) + seq![tag, body.len() as u8] + body + after)
            == kind_of_tag(tag),
{
    let own = seq![tag, body.len() as u8] + body + after;
    lemma_descriptors_passed(list, own);
    assert(descriptor_bytes(list) + own =~= descriptor_bytes(list) + seq![tag, body.len() as u8]
        + body + after);
    assert(own[0] == tag && own[1] == body.len());
}

/// A payload that goes on with a section is read as if it had come together with
/// what is waiting; an empty one changes nothing; and one whose pointer leads out
/// of it gives nothing and leaves nothing.
pub proof fn law_payloads_join_what_waits(buffer: Seq<u8>, other: Seq<u8>, payload: Seq<u8>)
    ensures
        payload.len() > 0 ==> pushed(buffer, false, payload) == pushed(
            other,
            true,
            seq![0u8] + buffer + payload,
        ),
        payload.len() == 0 ==> pushed(buffer, false, payload) == (Cut {
            sections: Seq::empty(),
            rest: buffer,
            invalid: None,
        }),
        payload.len() > 0 && payload.len() <= payload[0] ==> pushed(buffer, true, payload) == (Cut {
            sections: Seq::empty(),
            rest: Seq::empty(),
            invalid: None,
        }),
{
    assert((seq![0u8] + buffer + payload).skip(1) =~= buffer + payload);
}

} // verus!
