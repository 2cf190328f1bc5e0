//! What listing the streams of a file promises.

use vstd::prelude::*;

use crate::analysis::analyzed;
use crate::analysis::program_for;
use crate::analysis::streams_below;
use crate::analysis::streams_in;
use crate::analysis::streams_of;
use crate::analysis::supported;
use crate::analysis::with_packet;
use crate::analysis::with_pat;
use crate::analysis::with_pmt;
use crate::analysis::with_programs;
use crate::analysis::Analysis;
use crate::bytes::be12;
use crate::bytes::joined;
use crate::error::DemuxError;
use crate::packet::payload_of;
use crate::packet::pid_of;
use crate::packet::starts_unit;
use crate::psi::declared_len;
use crate::psi::pat_result;
use crate::psi::pmt_loop;
use crate::psi::pmt_loop_start;
use crate::psi::pmt_streams;
use crate::psi::pushed;
use crate::psi::StreamInfo;
use crate::psi_laws::is_whole_section;
use crate::psi_laws::law_sections_come_out;
use crate::sync::packets_of;

verus! {

/// A stream is kept if and only if it is there and its kind is known.
proof fn lemma_supported(streams: Seq<StreamInfo>, stream: StreamInfo)
    ensures
        supported(streams).contains(stream) <==> streams.contains(stream) && stream.kind is Some,
{
    let known = |s: StreamInfo| s.kind is Some;
    if supported(streams).contains(stream) {
        streams.lemma_filter_contains_rev(known, stream);
        let i = choose|i: int|
            0 <= i < supported(streams).len() && supported(streams)[i] == stream;
        streams.lemma_filter_pred(known, i);
        assert(known(stream));
    }
    if streams.contains(stream) && stream.kind is Some {
        let i = choose|i: int| 0 <= i < streams.len() && streams[i] == stream;
        streams.lemma_filter_contains(known, i);
    }
}

/// The streams of the programs below a bound.
proof fn lemma_streams_below(
    programs: Map<u16, Seq<StreamInfo>>,
    bound: nat,
    stream: StreamInfo,
)
    requires
        bound <= 65536,
    ensures
        streams_below(programs, bound).contains(stream) <==> stream.kind is Some && exists|
            program: u16,
        |
            program < bound && #[trigger] programs.contains_key(program)
                && programs[program].contains(stream),
    decreases bound,
{
    if bound > 0 {
        let last = (bound - 1) as u16;
        let before = streams_below(programs, (bound - 1) as nat);
        let all = streams_below(programs, bound);
        lemma_streams_below(programs, (bound - 1) as nat, stream);
        lemma_supported(programs[last], stream);
        if programs.contains_key(last) {
            let more = supported(programs[last]);
            assert(all == before + more);
            if before.contains(stream) {
                let i = choose|i: int| 0 <= i < before.len() && before[i] == stream;
                assert(all[i] == stream);
            }
            if more.contains(stream) {
                let i = choose|i: int| 0 <= i < more.len() && more[i] == stream;
                assert(all[before.len() + i] == stream);
            }
            if all.contains(stream) {
                let i = choose|i: int| 0 <= i < all.len() && all[i] == stream;
                if i < before.len() {
                    assert(before[i] == stream);
                } else {
                    assert(more[i - before.len()] == stream);
                }
            }
        }
    }
}

/// All programs count: a stream is listed if and only if its kind is known and
/// it is in the table of one of the programs.
pub proof fn law_streams_of_all_programs_are_listed(
    programs: Map<u16, Seq<StreamInfo>>,
    stream: StreamInfo,
)
    ensures
        streams_of(programs).contains(stream) <==> stream.kind is Some && exists|program: u16|
            #[trigger] programs.contains_key(program) && programs[program].contains(stream),
{
    lemma_streams_below(programs, 65536, stream);
}

/// Every list holds the streams of its own program.
pub open spec fn own_streams(programs: Map<u16, Seq<StreamInfo>>) -> bool {
    forall|program: u16, i: int|
        programs.contains_key(program) && 0 <= i < programs[program].len()
            ==> (#[trigger] programs[program][i]).program_number == program
}

/// Streams are listed by ascending program number.
pub proof fn law_programs_ascend(data: Seq<u8>, i: int, j: int)
    requires
        streams_in(data) is Ok,
        0 <= i < j < streams_in(data).unwrap().len(),
    ensures
        streams_in(data).unwrap()[i].program_number <= streams_in(data).unwrap()[j].program_number,
{
    let packets = packets_of(data).unwrap();
    let programs = analyzed(packets).unwrap().programs;
    lemma_analyzed_own(packets);
    lemma_programs_ascend(programs, 65536, i, j);
}

/// The streams in a table loop are of the program of the table.
proof fn lemma_loop_own(program: u16, section: Seq<u8>, offset: int, end: int)
    ensures
        pmt_loop(program, section, offset, end) matches Some(streams) ==> forall|i: int|
            0 <= i < streams.len() ==> (#[trigger] streams[i]).program_number == program,
    decreases end - offset,
{
    if offset + 5 <= end {
        let next = offset + 5 + be12(section[offset + 3], section[offset + 4]);
        if next <= end {
            lemma_loop_own(program, section, next, end);
        }
    }
}

/// Tables list the streams of their own program.
proof fn lemma_pmt_own(analysis: Analysis, pid: u16, sections: Seq<Seq<u8>>)
    requires
        own_streams(analysis.programs),
    ensures
        with_pmt(analysis, pid, sections) matches Ok(after) ==> own_streams(after.programs),
    decreases sections.len(),
{
    if sections.len() > 0 {
        lemma_pmt_own(analysis, pid, sections.drop_last());
        if let Ok(before) = with_pmt(analysis, pid, sections.drop_last()) {
            let section = sections.last();
            let program = program_for(before, pid, section);
            lemma_loop_own(program, section, pmt_loop_start(section), declared_len(section) - 4);
        }
    }
}

/// What programs there are says nothing of their streams.
proof fn lemma_pat_keeps(analysis: Analysis, sections: Seq<Seq<u8>>)
    ensures
        with_pat(analysis, sections) matches Ok(after) ==> after.programs == analysis.programs,
    decreases sections.len(),
{
    if sections.len() > 0 {
        lemma_pat_keeps(analysis, sections.drop_last());
        if let Ok(before) = with_pat(analysis, sections.drop_last()) {
            if let Ok(entries) = pat_result(sections.last()) {
                lemma_programs_keep(before, entries);
            }
        }
    }
}

/// What programs there are says nothing of their streams.
proof fn lemma_programs_keep(analysis: Analysis, entries: Seq<(u16, u16)>)
    ensures
        with_programs(analysis, entries).programs == analysis.programs,
    decreases entries.len(),
{
    if entries.len() > 0 {
        lemma_programs_keep(analysis, entries.drop_last());
    }
}

/// Every program has its own streams, whatever packets have been seen.
proof fn lemma_analyzed_own(packets: Seq<Seq<u8>>)
    ensures
        analyzed(packets) matches Ok(analysis) ==> own_streams(analysis.programs),
    decreases packets.len(),
{
    if packets.len() > 0 {
        lemma_analyzed_own(packets.drop_last());
        if let Ok(before) = analyzed(packets.drop_last()) {
            let packet = packets.last();
            if let Some(payload) = payload_of(packet) {
                let pid = pid_of(packet);
                if pid == 0 {
                    let cut = pushed(before.pat, starts_unit(packet), payload);
                    lemma_pat_keeps(Analysis { pat: cut.rest, ..before }, cut.sections);
                } else if before.pmts.contains_key(pid) {
                    let cut = pushed(before.pmts[pid], starts_unit(packet), payload);
                    lemma_pmt_own(
                        Analysis { pmts: before.pmts.insert(pid, cut.rest), ..before },
                        pid,
                        cut.sections,
                    );
                }
            }
        }
    }
}

/// Streams of the programs below a bound are listed by ascending number.
proof fn lemma_programs_ascend(
    programs: Map<u16, Seq<StreamInfo>>,
    bound: nat,
    i: int,
    j: int,
)
    requires
        own_streams(programs),
        bound <= 65536,
        0 <= i <= j < streams_below(programs, bound).len(),
    ensures
        streams_below(programs, bound)[i].program_number <= streams_below(
            programs,
            bound,
        )[j].program_number,
        streams_below(programs, bound)[j].program_number < bound,
    decreases bound,
{
    let last = (bound - 1) as u16;
    let before = streams_below(programs, (bound - 1) as nat);
    let all = streams_below(programs, bound);
    if j < before.len() {
        lemma_programs_ascend(programs, (bound - 1) as nat, i, j);
    } else {
        lemma_program_of(programs, last, j - before.len());
        if i < before.len() {
            lemma_programs_ascend(programs, (bound - 1) as nat, i, i);
        } else {
            lemma_program_of(programs, last, i - before.len());
        }
    }
}

/// A kept stream is one of its program.
proof fn lemma_program_of(programs: Map<u16, Seq<StreamInfo>>, program: u16, index: int)
    requires
        own_streams(programs),
        programs.contains_key(program),
        0 <= index < supported(programs[program]).len(),
    ensures
        supported(programs[program])[index].program_number == program,
{
    let list = programs[program];
    let stream = supported(list)[index];
    assert(supported(list).contains(stream));
    lemma_supported(list, stream);
    let k = choose|k: int| 0 <= k < list.len() && list[k] == stream;
    assert(programs[program][k].program_number == program);
}

/// Tables are read packet by packet, from the first to the last, and what was
/// learned before a packet is what it is read with.
pub proof fn law_packets_are_read_in_turn(packets: Seq<Seq<u8>>, packet: Seq<u8>)
    ensures
        analyzed(packets.push(packet)) == (match analyzed(packets) {
            Ok(before) => with_packet(before, packet),
            Err(e) => Err(e),
        }),
        analyzed(Seq::empty()) matches Ok(start) && start.pat.len() == 0 && start.pmts.dom()
            =~= Set::empty() && start.program_of.dom() =~= Set::empty() && start.programs.dom()
            =~= Set::empty(),
{
    assert(packets.push(packet).drop_last() =~= packets);
}

/// A packet without a payload says nothing, and neither does one that carries
/// no table.
pub proof fn law_other_packets_say_nothing(analysis: Analysis, packet: Seq<u8>)
    requires
        payload_of(packet) is None || (pid_of(packet) != 0 && !analysis.pmts.contains_key(
            pid_of(packet),
        )),
    ensures
        with_packet(analysis, packet) == Ok::<Analysis, DemuxError>(analysis),
{
}

/// Part of a table is kept for later, apart from the parts of other tables. A
/// table with an impossible length is an error.
pub proof fn law_table_parts_are_kept_apart(analysis: Analysis, packet: Seq<u8>, payload: Seq<u8>)
    requires
        payload_of(packet) == Some(payload),
    ensures
        ({
            let pid = pid_of(packet);
            let own = if pid == 0 {
                analysis.pat
            } else {
                analysis.pmts[pid]
            };
            let cut = pushed(own, starts_unit(packet), payload);
            pid == 0 || analysis.pmts.contains_key(pid) ==> {
                &&& cut.invalid matches Some(len) ==> with_packet(analysis, packet) == Err::<
                    Analysis,
                    DemuxError,
                >(DemuxError::SectionLength(len))
                &&& cut.invalid is None && cut.sections.len() == 0 ==> with_packet(analysis, packet)
                    == Ok::<Analysis, DemuxError>(
                    if pid == 0 {
                        Analysis { pat: cut.rest, ..analysis }
                    } else {
                        Analysis { pmts: analysis.pmts.insert(pid, cut.rest), ..analysis }
                    },
                )
            }
        }),
{
}

/// The program that a list of entries gives to the map table identifier `pid`:
/// that of the last entry for it.
pub open spec fn gives(entries: Seq<(u16, u16)>, pid: u16, program: u16) -> bool {
    exists|i: int|
        0 <= i < entries.len() && #[trigger] entries[i] == (program, pid) && forall|k: int|
            i < k < entries.len() ==> (#[trigger] entries[k]).1 != pid
}

/// Every entry of a program association table is noted: the program of each map
/// table identifier is that of the last entry for it, tables of the new
/// identifiers are looked out for, and nothing else changes.
pub proof fn law_every_program_is_noted(analysis: Analysis, entries: Seq<(u16, u16)>, pid: u16)
    ensures
        ({
            let after = with_programs(analysis, entries);
            let named = exists|i: int| 0 <= i < entries.len() && (#[trigger] entries[i]).1 == pid;
            &&& after.programs == analysis.programs
            &&& after.pat == analysis.pat
            &&& forall|program: u16| #[trigger]
                gives(entries, pid, program) ==> after.program_of.contains_key(pid)
                    && after.program_of[pid] == program && after.pmts.contains_key(pid)
            &&& !named ==> after.program_of.contains_key(pid) == analysis.program_of.contains_key(
                pid,
            ) && after.program_of[pid] == analysis.program_of[pid] && after.pmts.contains_key(pid)
                == analysis.pmts.contains_key(pid)
            &&& analysis.pmts.contains_key(pid) ==> after.pmts.contains_key(pid) && after.pmts[pid]
                == analysis.pmts[pid]
            &&& named && !analysis.pmts.contains_key(pid) ==> after.pmts[pid].len() == 0
        }),
    decreases entries.len(),
{
    if entries.len() > 0 {
        let head = entries.drop_last();
        let last = entries.len() - 1;
        law_every_program_is_noted(analysis, head, pid);
        assert(entries.last() == entries[last]);
        let after = with_programs(analysis, entries);
        assert forall|i: int| 0 <= i < head.len() implies #[trigger] head[i] == entries[i] by {}
        assert forall|program: u16| #[trigger] gives(
            entries,
            pid,
            program,
        ) implies after.program_of.contains_key(pid) && after.program_of[pid] == program
            && after.pmts.contains_key(pid) by {
            let i = choose|i: int|
                0 <= i < entries.len() && #[trigger] entries[i] == (program, pid) && forall|k: int|
                    i < k < entries.len() ==> (#[trigger] entries[k]).1 != pid;
            if i < last {
                assert(entries[last].1 != pid);
                assert(head[i] == (program, pid));
                assert(gives(head, pid, program));
            }
        }
        if exists|i: int| 0 <= i < entries.len() && (#[trigger] entries[i]).1 == pid {
            let i = choose|i: int| 0 <= i < entries.len() && (#[trigger] entries[i]).1 == pid;
            if i < last {
                assert(head[i].1 == pid);
            }
        }
        if exists|i: int| 0 <= i < head.len() && (#[trigger] head[i]).1 == pid {
            let i = choose|i: int| 0 <= i < head.len() && (#[trigger] head[i]).1 == pid;
            assert(entries[i].1 == pid);
        }
    }
}

/// The sections of a table are noted one by one, in their order.
pub proof fn law_sections_are_noted_in_turn(
    analysis: Analysis,
    pid: u16,
    sections: Seq<Seq<u8>>,
    section: Seq<u8>,
)
    ensures
        with_pat(analysis, Seq::empty()) == Ok::<Analysis, DemuxError>(analysis),
        with_pmt(analysis, pid, Seq::empty()) == Ok::<Analysis, DemuxError>(analysis),
        with_pat(analysis, sections.push(section)) == (match with_pat(analysis, sections) {
            Err(e) => Err(e),
            Ok(before) => match pat_result(section) {
                Err(e) => Err(e),
                Ok(entries) => Ok(with_programs(before, entries)),
            },
        }),
        with_pmt(analysis, pid, sections) matches Err(e) ==> with_pmt(
            analysis,
            pid,
            sections.push(section),
        ) == Err::<Analysis, DemuxError>(e),
        with_pmt(analysis, pid, sections) matches Ok(before) ==> before.program_of.contains_key(pid)
            ==> with_pmt(analysis, pid, sections.push(section)) == (match pmt_streams(
            before.program_of[pid],
            section,
        ) {
            Err(e) => Err::<Analysis, DemuxError>(e),
            Ok(streams) => Ok(
                Analysis {
                    programs: before.programs.insert(before.program_of[pid], streams),
                    ..before
                },
            ),
        }),
{
    assert(sections.push(section).drop_last() =~= sections);
}

/// A program map table says what streams its program has: the table of a known
/// program, in one payload, replaces what was known of that program, and
/// changes nothing of the others.
pub proof fn law_table_replaces_its_program(
    analysis: Analysis,
    packet: Seq<u8>,
    skipped: Seq<u8>,
    section: Seq<u8>,
    tail: Seq<u8>,
    program: u16,
    streams: Seq<StreamInfo>,
)
    requires
        pid_of(packet) != 0,
        analysis.pmts.contains_key(pid_of(packet)),
        analysis.program_of.contains_key(pid_of(packet)),
        analysis.program_of[pid_of(packet)] == program,
        starts_unit(packet),
        skipped.len() <= 255,
        is_whole_section(section),
        tail.len() < 3 || tail[0] == 0xFF,
        payload_of(packet) == Some(seq![skipped.len() as u8] + skipped + section + tail),
        pmt_streams(program, section) == Ok::<Seq<StreamInfo>, DemuxError>(streams),
    ensures
        with_packet(analysis, packet) matches Ok(after) && after.programs
            == analysis.programs.insert(program, streams) && after.program_of
            == analysis.program_of && after.pat == analysis.pat && forall|pid: u16|
            pid != pid_of(packet) ==> #[trigger] after.pmts.contains_key(pid)
                == analysis.pmts.contains_key(pid) && after.pmts[pid] == analysis.pmts[pid],
{
    let pid = pid_of(packet);
    let sections = seq![section];
    reveal_with_fuel(joined, 2);
    assert(joined(sections) =~= section);
    law_sections_come_out(analysis.pmts[pid], skipped, sections, tail);
    let cut = pushed(
        analysis.pmts[pid],
        true,
        seq![skipped.len() as u8] + skipped + section + tail,
    );
    let kept = Analysis { pmts: analysis.pmts.insert(pid, cut.rest), ..analysis };
    let none = Seq::<Seq<u8>>::empty();
    assert(sections =~= none.push(section));
    law_sections_are_noted_in_turn(kept, pid, none, section);
    assert(none.push(section).drop_last() =~= none);
}

/// A program association table says what programs there are: the table, in one
/// payload, adds all its entries to what was known.
pub proof fn law_table_adds_its_programs(
    analysis: Analysis,
    packet: Seq<u8>,
    skipped: Seq<u8>,
    section: Seq<u8>,
    tail: Seq<u8>,
    entries: Seq<(u16, u16)>,
)
    requires
        pid_of(packet) == 0,
        starts_unit(packet),
        skipped.len() <= 255,
        is_whole_section(section),
        tail.len() < 3 || tail[0] == 0xFF,
        payload_of(packet) == Some(seq![skipped.len() as u8] + skipped + section + tail),
        pat_result(section) == Ok::<Seq<(u16, u16)>, DemuxError>(entries),
    ensures
        with_packet(analysis, packet) == Ok::<Analysis, DemuxError>(
            with_programs(
                Analysis {
                    pat: if tail.len() < 3 {
                        tail
                    } else {
                        Seq::empty()
                    },
                    ..analysis
                },
                entries,
            ),
        ),
{
    let sections = seq![section];
    reveal_with_fuel(joined, 2);
    assert(joined(sections) =~= section);
    law_sections_come_out(analysis.pat, skipped, sections, tail);
    let none = Seq::<Seq<u8>>::empty();
    assert(sections =~= none.push(section));
    let cut = pushed(
        analysis.pat,
        true,
        seq![skipped.len() as u8] + skipped + section + tail,
    );
    law_sections_are_noted_in_turn(Analysis { pat: cut.rest, ..analysis }, 0, none, section);
}

/// What is kept of a list of which all or none is kept.
proof fn lemma_all_or_none(streams: Seq<StreamInfo>, program: u16, own: u16)
    requires
        forall|i: int| 0 <= i < streams.len() ==> (#[trigger] streams[i]).program_number == own,
    ensures
        streams.filter(|s: StreamInfo| s.program_number == program) == (if own == program {
            streams
        } else {
            Seq::empty()
        }),
    decreases streams.len(),
{
    reveal(Seq::filter);
    let keep = |s: StreamInfo| s.program_number == program;
    if streams.len() > 0 {
        let head = streams.drop_last();
        assert forall|i: int| 0 <= i < head.len() implies (#[trigger] head[i]).program_number == own by {
            assert(head[i] == streams[i]);
        }
        lemma_all_or_none(head, program, own);
        assert(streams.last() == streams[streams.len() - 1]);
        assert(streams =~= head.push(streams.last()));
    }
    assert(streams.filter(keep) =~= (if own == program {
        streams
    } else {
        Seq::empty()
    }));
}

/// The streams of one program below a bound.
proof fn lemma_program_listed(
    programs: Map<u16, Seq<StreamInfo>>,
    program: u16,
    bound: nat,
)
    requires
        own_streams(programs),
        bound <= 65536,
    ensures
        streams_below(programs, bound).filter(|s: StreamInfo| s.program_number == program) == (
        if program < bound && programs.contains_key(program) {
            supported(programs[program])
        } else {
            Seq::empty()
        }),
    decreases bound,
{
    let keep = |s: StreamInfo| s.program_number == program;
    if bound == 0 {
        reveal(Seq::filter);
        assert(streams_below(programs, 0).filter(keep) =~= Seq::<StreamInfo>::empty());
    } else {
        let last = (bound - 1) as u16;
        let before = streams_below(programs, (bound - 1) as nat);
        lemma_program_listed(programs, program, (bound - 1) as nat);
        if programs.contains_key(last) {
            let more = supported(programs[last]);
            assert forall|i: int| 0 <= i < more.len() implies (#[trigger] more[i]).program_number
                == last by {
                lemma_program_of(programs, last, i);
            }
            lemma_all_or_none(more, program, last);
            Seq::filter_distributes_over_add(before, more, keep);
            assert(before.filter(keep) + more.filter(keep) =~= (if program < bound
                && programs.contains_key(program) {
                supported(programs[program])
            } else {
                Seq::empty()
            }));
        }
    }
}

/// The streams of each program are listed as its table gives them: all of a
/// known kind, in the order of the table, as often as they stand there.
pub proof fn law_program_is_listed_as_its_table(packets: Seq<Seq<u8>>, program: u16)
    requires
        analyzed(packets) is Ok,
    ensures
        ({
            let programs = analyzed(packets).unwrap().programs;
            streams_of(programs).filter(|s: StreamInfo| s.program_number == program) == (
            if programs.contains_key(program) {
                programs[program].filter(|s: StreamInfo| s.kind is Some)
            } else {
                Seq::empty()
            })
        }),
{
    lemma_analyzed_own(packets);
    lemma_program_listed(analyzed(packets).unwrap().programs, program, 65536);
}

/// The streams of a file are those that its packets announce, and a file that
/// announces none of a known kind is refused.
pub proof fn law_file_is_its_packets(data: Seq<u8>)
    ensures
        packets_of(data) matches Err(e) ==> streams_in(data) == Err::<Seq<StreamInfo>, DemuxError>(e),
        packets_of(data) matches Ok(packets) ==> match analyzed(packets) {
            Err(e) => streams_in(data) == Err::<Seq<StreamInfo>, DemuxError>(e),
            Ok(analysis) => {
                let listed = streams_of(analysis.programs);
                &&& listed.len() > 0 ==> streams_in(data) == Ok::<Seq<StreamInfo>, DemuxError>(
                    listed,
                )
                &&& listed.len() == 0 ==> streams_in(data) == Err::<Seq<StreamInfo>, DemuxError>(
                    DemuxError::NoSupportedStreams,
                )
            },
        },
{
}

} // verus!
