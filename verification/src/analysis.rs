//! Which elementary streams a transport stream announces.

use std::collections::BTreeMap;
use std::collections::HashMap;

use vstd::prelude::*;
use vstd::std_specs::btree::increasing_seq;
use vstd::std_specs::cmp::OrdSpec;
use vstd::std_specs::iter::IteratorSpec;

use crate::bytes::be16;
use crate::bytes::views;
use crate::error::DemuxError;
use crate::packet::payload_of;
use crate::packet::pid_of;
use crate::packet::starts_unit;
use crate::packet::TsPacket;
use crate::psi::parse_pat;
use crate::psi::parse_pmt;
use crate::psi::pat_result;
use crate::psi::pmt_program_number;
use crate::psi::pmt_streams;
use crate::psi::pushed;
use crate::psi::SectionAssembler;
use crate::psi::StreamInfo;
use crate::sync::packets_of;
use crate::sync::PacketReader;

verus! {

/// What the tables of a stream have said so far.
#[verifier::ext_equal]
pub struct Analysis {
    /// The unfinished section of the program association table.
    pub pat: Seq<u8>,
    /// The unfinished sections of the program map tables, by identifier.
    pub pmts: Map<u16, Seq<u8>>,
    /// The program that each map table identifier belongs to.
    pub program_of: Map<u16, u16>,
    /// The streams of each program, as its last table gave them.
    pub programs: Map<u16, Seq<StreamInfo>>,
}

/// Nothing has been said.
pub open spec fn no_analysis() -> Analysis {
    Analysis {
        pat: Seq::empty(),
        pmts: Map::empty(),
        program_of: Map::empty(),
        programs: Map::empty(),
    }
}

/// The map table identifiers of some programs become known.
pub open spec fn with_programs(analysis: Analysis, entries: Seq<(u16, u16)>) -> Analysis
    decreases entries.len(),
{
    if entries.len() == 0 {
        analysis
    } else {
        let before = with_programs(analysis, entries.drop_last());
        let (program, pid) = entries.last();
        Analysis {
            program_of: before.program_of.insert(pid, program),
            pmts: if before.pmts.contains_key(pid) {
                before.pmts
            } else {
                before.pmts.insert(pid, Seq::empty())
            },
            ..before
        }
    }
}

/// Sections of the program association table become known.
pub open spec fn with_pat(analysis: Analysis, sections: Seq<Seq<u8>>) -> Result<Analysis, DemuxError>
    decreases sections.len(),
{
    if sections.len() == 0 {
        Ok(analysis)
    } else {
        match with_pat(analysis, sections.drop_last()) {
            Err(e) => Err(e),
            Ok(before) => match pat_result(sections.last()) {
                Err(e) => Err(e),
                Ok(entries) => Ok(with_programs(before, entries)),
            },
        }
    }
}

/// The program that a section of a map table belongs to.
pub open spec fn program_for(analysis: Analysis, pid: u16, section: Seq<u8>) -> u16 {
    if analysis.program_of.contains_key(pid) {
        analysis.program_of[pid]
    } else if section.len() >= 5 && section[0] == 0x02 {
        be16(section[3], section[4]) as u16
    } else {
        0
    }
}

/// Sections of a program map table become known.
pub open spec fn with_pmt(analysis: Analysis, pid: u16, sections: Seq<Seq<u8>>) -> Result<
    Analysis,
    DemuxError,
>
    decreases sections.len(),
{
    if sections.len() == 0 {
        Ok(analysis)
    } else {
        match with_pmt(analysis, pid, sections.drop_last()) {
            Err(e) => Err(e),
            Ok(before) => {
                let program = program_for(before, pid, sections.last());
                match pmt_streams(program, sections.last()) {
                    Err(e) => Err(e),
                    Ok(streams) => Ok(
                        Analysis { programs: before.programs.insert(program, streams), ..before },
                    ),
                }
            },
        }
    }
}

/// One more packet is seen.
pub open spec fn with_packet(analysis: Analysis, packet: Seq<u8>) -> Result<Analysis, DemuxError> {
    let pid = pid_of(packet);
    match payload_of(packet) {
        None => Ok(analysis),
        Some(payload) => if pid == 0 {
            let cut = pushed(analysis.pat, starts_unit(packet), payload);
            match cut.invalid {
                Some(len) => Err(DemuxError::SectionLength(len)),
                None => with_pat(Analysis { pat: cut.rest, ..analysis }, cut.sections),
            }
        } else if analysis.pmts.contains_key(pid) {
            let cut = pushed(analysis.pmts[pid], starts_unit(packet), payload);
            match cut.invalid {
                Some(len) => Err(DemuxError::SectionLength(len)),
                None => with_pmt(
                    Analysis { pmts: analysis.pmts.insert(pid, cut.rest), ..analysis },
                    pid,
                    cut.sections,
                ),
            }
        } else {
            Ok(analysis)
        },
    }
}

/// What the tables in a run of packets say.
pub open spec fn analyzed(packets: Seq<Seq<u8>>) -> Result<Analysis, DemuxError>
    decreases packets.len(),
{
    if packets.len() == 0 {
        Ok(no_analysis())
    } else {
        match analyzed(packets.drop_last()) {
            Err(e) => Err(e),
            Ok(before) => with_packet(before, packets.last()),
        }
    }
}

/// The streams of a known kind.
pub open spec fn supported(streams: Seq<StreamInfo>) -> Seq<StreamInfo> {
    streams.filter(|s: StreamInfo| s.kind is Some)
}

/// The streams of a known kind in the programs below `bound`, by ascending
/// program number.
pub open spec fn streams_below(programs: Map<u16, Seq<StreamInfo>>, bound: nat) -> Seq<StreamInfo>
    decreases bound,
{
    if bound == 0 {
        Seq::empty()
    } else {
        let program = (bound - 1) as u16;
        let before = streams_below(programs, (bound - 1) as nat);
        if programs.contains_key(program) {
            before + supported(programs[program])
        } else {
            before
        }
    }
}

/// The streams of a known kind in all programs.
pub open spec fn streams_of(programs: Map<u16, Seq<StreamInfo>>) -> Seq<StreamInfo> {
    streams_below(programs, 65536)
}

/// All streams are of a known kind.
pub open spec fn all_known(streams: Seq<StreamInfo>) -> bool {
    forall|i: int| 0 <= i < streams.len() ==> (#[trigger] streams[i]).kind is Some
}

/// The streams that can be taken out of a file.
pub open spec fn streams_in(data: Seq<u8>) -> Result<Seq<StreamInfo>, DemuxError> {
    match packets_of(data) {
        Err(e) => Err(e),
        Ok(packets) => match analyzed(packets) {
            Err(e) => Err(e),
            Ok(analysis) => if streams_of(analysis.programs).len() == 0 {
                Err(DemuxError::NoSupportedStreams)
            } else {
                Ok(streams_of(analysis.programs))
            },
        },
    }
}

/// The buffers of a set of assemblers.
spec fn buffers(assemblers: Map<u16, SectionAssembler>) -> Map<u16, Seq<u8>> {
    assemblers.map_values(|a: SectionAssembler| a.buffer@)
}

/// The contents of a set of stream lists.
spec fn lists(programs: Map<u16, Vec<StreamInfo>>) -> Map<u16, Seq<StreamInfo>> {
    programs.map_values(|v: Vec<StreamInfo>| v@)
}

/// Gathers what the tables say.
struct Analyzer {
    pat: SectionAssembler,
    pmt_assemblers: HashMap<u16, SectionAssembler>,
    pmt_to_program: HashMap<u16, u16>,
    programs: BTreeMap<u16, Vec<StreamInfo>>,
}

impl Analyzer {
    spec fn view(&self) -> Analysis {
        Analysis {
            pat: self.pat.buffer@,
            pmts: buffers(self.pmt_assemblers@),
            program_of: self.pmt_to_program@,
            programs: lists(self.programs@),
        }
    }

    fn new() -> (analyzer: Analyzer)
        ensures
            analyzer@ == no_analysis(),
    {
        let analyzer = Analyzer {
            pat: SectionAssembler::new(),
            pmt_assemblers: HashMap::new(),
            pmt_to_program: HashMap::new(),
            programs: BTreeMap::new(),
        };
        assert(analyzer@ =~= no_analysis());
        analyzer
    }

    /// Notes the map table identifiers of some programs.
    fn note_programs(&mut self, entries: &Vec<(u16, u16)>)
        ensures
            final(self)@ == with_programs(old(self)@, entries@),
    {
        let mut i: usize = 0;
        assert(entries@.take(0) =~= Seq::<(u16, u16)>::empty());
        while i < entries.len()
            invariant
                i <= entries@.len(),
                self@ == with_programs(old(self)@, entries@.take(i as int)),
            decreases entries@.len() - i,
        {
            let (program_number, pmt_pid) = entries[i];
            let ghost before = self@;
            self.pmt_to_program.insert(pmt_pid, program_number);
            if !self.pmt_assemblers.contains_key(&pmt_pid) {
                self.pmt_assemblers.insert(pmt_pid, SectionAssembler::new());
            }
            proof {
                let next = entries@.take(i + 1);
                assert(next.drop_last() =~= entries@.take(i as int));
                assert(next.last() == (program_number, pmt_pid));
                assert(self@ =~= with_programs(old(self)@, next));
            }
            i += 1;
        }
        assert(entries@.take(i as int) =~= entries@);
    }

    /// Reads sections of the program association table.
    fn note_pat(&mut self, sections: &Vec<Vec<u8>>) -> (result: Result<(), DemuxError>)
        ensures
            match with_pat(old(self)@, views(sections@)) {
                Ok(after) => result is Ok && final(self)@ == after,
                Err(e) => result == Err::<(), DemuxError>(e),
            },
    {
        let mut i: usize = 0;
        let ghost all = views(sections@);
        assert(all.take(0) =~= Seq::<Seq<u8>>::empty());
        while i < sections.len()
            invariant
                i <= sections@.len(),
                all == views(sections@),
                with_pat(old(self)@, all.take(i as int)) == Ok::<Analysis, DemuxError>(self@),
            decreases sections@.len() - i,
        {
            proof {
                lemma_with_pat_fails(old(self)@, all, i + 1);
                assert(all.take(i + 1).drop_last() =~= all.take(i as int));
                assert(all.take(i + 1).last() == sections@[i as int]@);
            }
            match parse_pat(&sections[i]) {
                Ok(entries) => {
                    self.note_programs(&entries);
                },
                Err(e) => {
                    return Err(e);
                },
            }
            i += 1;
        }
        assert(all.take(i as int) =~= all);
        Ok(())
    }

    /// Reads sections of a program map table.
    fn note_pmt(&mut self, pid: u16, sections: &Vec<Vec<u8>>) -> (result: Result<(), DemuxError>)
        ensures
            match with_pmt(old(self)@, pid, views(sections@)) {
                Ok(after) => result is Ok && final(self)@ == after,
                Err(e) => result == Err::<(), DemuxError>(e),
            },
    {
        let mut i: usize = 0;
        let ghost all = views(sections@);
        assert(all.take(0) =~= Seq::<Seq<u8>>::empty());
        while i < sections.len()
            invariant
                i <= sections@.len(),
                all == views(sections@),
                with_pmt(old(self)@, pid, all.take(i as int)) == Ok::<Analysis, DemuxError>(self@),
            decreases sections@.len() - i,
        {
            proof {
                lemma_with_pmt_fails(old(self)@, pid, all, i + 1);
                assert(all.take(i + 1).drop_last() =~= all.take(i as int));
                assert(all.take(i + 1).last() == sections@[i as int]@);
            }
            let program_number: u16 = match self.pmt_to_program.get(&pid) {
                Some(number) => *number,
                None => match pmt_program_number(&sections[i]) {
                    Some(number) => number,
                    None => 0,
                },
            };
            match parse_pmt(program_number, &sections[i]) {
                Ok(streams) => {
                    let ghost before = self@;
                    let ghost found = streams@;
                    self.programs.insert(program_number, streams);
                    assert(self@ =~= (Analysis {
                        programs: before.programs.insert(program_number, found),
                        ..before
                    }));
                },
                Err(e) => {
                    return Err(e);
                },
            }
            i += 1;
        }
        assert(all.take(i as int) =~= all);
        Ok(())
    }

    /// Looks at one more packet.
    fn note_packet(&mut self, packet: &TsPacket<'_>) -> (result: Result<(), DemuxError>)
        requires
            packet.wf(),
        ensures
            match with_packet(old(self)@, packet@) {
                Ok(after) => result is Ok && final(self)@ == after,
                Err(e) => result == Err::<(), DemuxError>(e),
            },
    {
        let payload = match packet.payload() {
            None => {
                return Ok(());
            },
            Some(payload) => payload,
        };
        if packet.pid == 0 {
            let sections = match self.pat.push(packet.payload_unit_start, payload) {
                Ok(sections) => sections,
                Err(e) => {
                    return Err(e);
                },
            };
            proof {
                let cut = pushed(old(self)@.pat, packet.payload_unit_start, payload@);
                assert(self@ =~= (Analysis { pat: cut.rest, ..old(self)@ }));
            }
            return self.note_pat(&sections);
        }
        match self.pmt_assemblers.remove(&packet.pid) {
            None => {
                assert(self@ =~= old(self)@);
                Ok(())
            },
            Some(mut assembler) => {
                let pushed_sections = assembler.push(packet.payload_unit_start, payload);
                let ghost rest = assembler.buffer@;
                self.pmt_assemblers.insert(packet.pid, assembler);
                match pushed_sections {
                    Err(e) => Err(e),
                    Ok(sections) => {
                        proof {
                            assert(self@ =~= (Analysis {
                                pmts: old(self)@.pmts.insert(packet.pid, rest),
                                ..old(self)@
                            }));
                        }
                        self.note_pmt(packet.pid, &sections)
                    },
                }
            },
        }
    }
}

/// Programs that are not there add no streams.
pub proof fn lemma_streams_gap(programs: Map<u16, Seq<StreamInfo>>, low: nat, high: nat)
    requires
        low <= high <= 65536,
        forall|program: u16| low <= program < high ==> !#[trigger] programs.contains_key(program),
    ensures
        streams_below(programs, high) == streams_below(programs, low),
    decreases high,
{
    if low < high {
        let program = (high - 1) as u16;
        assert(low <= program < high);
        lemma_streams_gap(programs, low, (high - 1) as nat);
    }
}

/// Keys in increasing order are so as numbers.
proof fn lemma_keys_ascend(keys: Seq<u16>)
    requires
        increasing_seq(keys),
    ensures
        forall|i: int, j: int| 0 <= i < j < keys.len() ==> keys[i] < keys[j],
{
    assert forall|i: int, j: int| 0 <= i < j < keys.len() implies keys[i] < keys[j] by {
        assert(keys[i].cmp_spec(&keys[j]) is Less);
    }
}

/// Appends the streams of a known kind.
fn append_supported(out: &mut Vec<StreamInfo>, streams: &Vec<StreamInfo>)
    ensures
        final(out)@ == old(out)@ + supported(streams@),
{
    let mut i: usize = 0;
    proof {
        reveal(Seq::filter);
        assert(streams@.take(0) =~= Seq::<StreamInfo>::empty());
        assert(supported(streams@.take(0)) =~= Seq::<StreamInfo>::empty());
        assert(out@ =~= old(out)@ + supported(streams@.take(0)));
    }
    while i < streams.len()
        invariant
            i <= streams@.len(),
            out@ == old(out)@ + supported(streams@.take(i as int)),
        decreases streams@.len() - i,
    {
        let stream = streams[i];
        if stream.kind.is_some() {
            out.push(stream);
        }
        proof {
            reveal(Seq::filter);
            let next = streams@.take(i + 1);
            assert(next.drop_last() =~= streams@.take(i as int));
            assert(next.last() == stream);
            assert(out@ =~= old(out)@ + supported(next));
        }
        i += 1;
    }
    assert(streams@.take(i as int) =~= streams@);
}

/// The streams of a known kind, by ascending program number.
fn list_streams(programs: &BTreeMap<u16, Vec<StreamInfo>>) -> (streams: Vec<StreamInfo>)
    ensures
        streams@ == streams_of(lists(programs@)),
{
    let mut out: Vec<StreamInfo> = Vec::new();
    let ghost mut bound: nat = 0;
    let entries = programs.iter();
    let ghost all = entries.remaining();
    let ghost keys = all.map_values(|entry: (&u16, &Vec<StreamInfo>)| *entry.0);
    proof {
        lemma_keys_ascend(keys);
        assert forall|i: int, j: int| 0 <= i < j < all.len() implies *(#[trigger] all[i]).0
            < *(#[trigger] all[j]).0 by {
            assert(keys[i] < keys[j]);
        }
        assert forall|j: int| 0 <= j < all.len() implies programs@.contains_key(
            *(#[trigger] all[j]).0,
        ) && programs@[*all[j].0] == *all[j].1 by {
            assert(programs@.contains_key(*all[j].0));
        }
    }
    for entry in it: entries
        invariant
            bound <= 65536,
            out@ == streams_below(lists(programs@), bound),
            it.seq() == all,
            forall|i: int, j: int|
                0 <= i < j < all.len() ==> *(#[trigger] all[i]).0 < *(#[trigger] all[j]).0,
            forall|j: int| 0 <= j < it.index() ==> *(#[trigger] all[j]).0 < bound,
            forall|j: int| it.index() <= j < all.len() ==> *(#[trigger] all[j]).0 >= bound,
            forall|j: int|
                0 <= j < all.len() ==> programs@.contains_key(*(#[trigger] all[j]).0)
                    && programs@[*all[j].0] == *all[j].1,
            forall|k: u16| #[trigger] programs@.contains_key(k) ==> all.contains((&k, &programs@[k])),
    {
        append_supported(&mut out, entry.1);
        proof {
            let key = *entry.0;
            assert(entry == all[it.index()]);
            lemma_streams_gap(lists(programs@), bound, key as nat);
            bound = (key + 1) as nat;
        }
    }
    proof {
        lemma_streams_gap(lists(programs@), bound, 65536);
    }
    out
}

/// A run of packets fails where a part of it does.
proof fn lemma_analyzed_fails(packets: Seq<Seq<u8>>, count: int)
    requires
        0 <= count <= packets.len(),
    ensures
        analyzed(packets.take(count)) is Err ==> analyzed(packets) == analyzed(packets.take(count)),
    decreases packets.len(),
{
    if count == packets.len() {
        assert(packets.take(count) =~= packets);
    } else {
        lemma_analyzed_fails(packets.drop_last(), count);
        assert(packets.drop_last().take(count) =~= packets.take(count));
    }
}

/// Streams are listed only where their kind is known.
proof fn lemma_streams_known(programs: Map<u16, Seq<StreamInfo>>, bound: nat)
    ensures
        all_known(streams_below(programs, bound)),
    decreases bound,
{
    if bound > 0 {
        lemma_streams_known(programs, (bound - 1) as nat);
        let program = (bound - 1) as u16;
        assert(all_known(supported(programs[program]))) by {
            broadcast use vstd::seq_lib::group_filter_ensures;

            let known = |s: StreamInfo| s.kind is Some;
            let kept = supported(programs[program]);
            assert forall|i: int| 0 <= i < kept.len() implies (#[trigger] kept[i]).kind is Some by {
                assert(known(kept[i]));
            }
        }
    }
}

/// The streams that can be taken out of a file: those of a known kind, by
/// ascending program number. Fails where the file cannot be read as a
/// transport stream, where a table is damaged, and where there is no such
/// stream.
pub fn analyze(data: &[u8]) -> (result: Result<Vec<StreamInfo>, DemuxError>)
    ensures
        match streams_in(data@) {
            Ok(s) => result matches Ok(streams) && streams@ == s && all_known(s),
            Err(e) => result matches Err(err) && err == e,
        },
{
    let mut reader = PacketReader::open(data)?;
    let mut analyzer = Analyzer::new();
    let ghost all = reader.ahead();
    let ghost mut count: int = 0;
    assert(all.take(0) =~= Seq::<Seq<u8>>::empty());
    assert(all.skip(0) =~= all);
    loop
        invariant
            reader.wf(),
            0 <= count <= all.len(),
            reader.ahead() == all.skip(count),
            packets_of(data@) == Ok::<Seq<Seq<u8>>, DemuxError>(all),
            analyzed(all.take(count)) == Ok::<Analysis, DemuxError>(analyzer@),
        ensures
            count == all.len(),
        decreases all.len() - count,
    {
        let packet = match reader.next_packet() {
            Some(packet) => packet,
            None => {
                break;
            },
        };
        proof {
            assert(packet@ == all[count]);
            assert(all.take(count + 1).drop_last() =~= all.take(count));
            lemma_analyzed_fails(all, count + 1);
            assert(reader.ahead() =~= all.skip(count + 1));
        }
        analyzer.note_packet(&packet)?;
        proof {
            count = count + 1;
        }
    }
    assert(all.take(count) =~= all);
    let streams = list_streams(&analyzer.programs);
    proof {
        lemma_streams_known(analyzer@.programs, 65536);
    }
    if streams.len() == 0 {
        return Err(DemuxError::NoSupportedStreams);
    }
    Ok(streams)
}

/// A list of sections fails where a part of it does.
proof fn lemma_with_pat_fails(analysis: Analysis, sections: Seq<Seq<u8>>, count: int)
    requires
        0 <= count <= sections.len(),
    ensures
        with_pat(analysis, sections.take(count)) is Err ==> with_pat(analysis, sections) == with_pat(
            analysis,
            sections.take(count),
        ),
    decreases sections.len(),
{
    if count == sections.len() {
        assert(sections.take(count) =~= sections);
    } else {
        lemma_with_pat_fails(analysis, sections.drop_last(), count);
        assert(sections.drop_last().take(count) =~= sections.take(count));
    }
}

/// A list of sections fails where a part of it does.
proof fn lemma_with_pmt_fails(analysis: Analysis, pid: u16, sections: Seq<Seq<u8>>, count: int)
    requires
        0 <= count <= sections.len(),
    ensures
        with_pmt(analysis, pid, sections.take(count)) is Err ==> with_pmt(analysis, pid, sections)
            == with_pmt(analysis, pid, sections.take(count)),
    decreases sections.len(),
{
    if count == sections.len() {
        assert(sections.take(count) =~= sections);
    } else {
        lemma_with_pmt_fails(analysis, pid, sections.drop_last(), count);
        assert(sections.drop_last().take(count) =~= sections.take(count));
    }
}

} // verus!
