//! What taking a whole file apart promises, from its bytes to its outputs.

use vstd::prelude::*;
use vstd::utf8::valid_utf8;

use crate::analysis::analyzed;
use crate::analysis::lemma_streams_gap;
use crate::analysis::streams_below;
use crate::analysis::streams_in;
use crate::analysis::streams_of;
use crate::analysis::supported;
use crate::analysis::with_packet;
use crate::analysis::with_programs;
use crate::analysis::Analysis;
use crate::analysis_laws::gives;
use crate::analysis_laws::law_every_program_is_noted;
use crate::analysis_laws::law_file_is_its_packets;
use crate::analysis_laws::law_other_packets_say_nothing;
use crate::analysis_laws::law_packets_are_read_in_turn;
use crate::analysis_laws::law_table_adds_its_programs;
use crate::analysis_laws::law_table_replaces_its_program;
use crate::bytes::joined;
use crate::demux::demuxed;
use crate::demux_laws::law_undamaged_streams_come_out;
use crate::demux_laws::own_packets;
use crate::error::DemuxError;
use crate::packet::payload_of;
use crate::packet::pid_of;
use crate::packet::starts_unit;
use crate::path_laws::is_cut;
use crate::paths::PathView;
use crate::pes_laws::all_elementary;
use crate::pes_laws::all_whole;
use crate::pes_laws::pes_packets;
use crate::pes_laws::run_on;
use crate::plan_laws::law_one_stream_takes_the_name;
use crate::plan_laws::single_name;
use crate::psi::pat_result;
use crate::psi::pmt_streams;
use crate::psi::StreamInfo;
use crate::psi_laws::is_whole_section;
use crate::sync_laws::are_frames;
use crate::sync_laws::law_plain_file_is_read;

verus! {

/// A packet that carries one whole section, and stuffing behind it.
pub open spec fn carries_section(packet: Seq<u8>, section: Seq<u8>, fill: Seq<u8>) -> bool {
    &&& starts_unit(packet)
    &&& is_whole_section(section)
    &&& fill.len() < 3 || fill[0] == 0xFF
    &&& payload_of(packet) == Some(seq![0u8] + section + fill)
}

/// A stream of one program, announced by one table each for the programs and
/// for the program.
pub struct Announcement {
    pub pat: Seq<u8>,
    pub pat_section: Seq<u8>,
    pub pat_fill: Seq<u8>,
    pub pmt: Seq<u8>,
    pub pmt_section: Seq<u8>,
    pub pmt_fill: Seq<u8>,
    pub pmt_pid: u16,
    pub stream: StreamInfo,
}

/// The tables announce the stream.
pub open spec fn is_announced(a: Announcement) -> bool {
    &&& pid_of(a.pat) == 0
    &&& carries_section(a.pat, a.pat_section, a.pat_fill)
    &&& pat_result(a.pat_section) == Ok::<Seq<(u16, u16)>, DemuxError>(
        seq![(a.stream.program_number, a.pmt_pid)],
    )
    &&& a.pmt_pid != 0
    &&& pid_of(a.pmt) == a.pmt_pid
    &&& carries_section(a.pmt, a.pmt_section, a.pmt_fill)
    &&& pmt_streams(a.stream.program_number, a.pmt_section) == Ok::<Seq<StreamInfo>, DemuxError>(
        seq![a.stream],
    )
    &&& a.stream.kind is Some
    &&& a.stream.pid != 0
    &&& a.stream.pid != a.pmt_pid
}

/// What the two tables say.
proof fn lemma_tables(a: Announcement)
    requires
        is_announced(a),
    ensures
        analyzed(seq![a.pat, a.pmt]) matches Ok(said) && said.programs == Map::<
            u16,
            Seq<StreamInfo>,
        >::empty().insert(a.stream.program_number, seq![a.stream]) && !said.pmts.contains_key(
            a.stream.pid,
        ),
{
    let none = Seq::<Seq<u8>>::empty();
    let nothing = Seq::<u8>::empty();
    let program = a.stream.program_number;
    let entries = seq![(program, a.pmt_pid)];
    law_packets_are_read_in_turn(none, a.pat);
    law_packets_are_read_in_turn(none.push(a.pat), a.pmt);
    assert(none.push(a.pat).push(a.pmt) =~= seq![a.pat, a.pmt]);
    assert(seq![0u8] + nothing + a.pat_section + a.pat_fill =~= seq![0u8] + a.pat_section
        + a.pat_fill);
    assert(seq![0u8] + nothing + a.pmt_section + a.pmt_fill =~= seq![0u8] + a.pmt_section
        + a.pmt_fill);
    let start = analyzed(none).unwrap();
    law_table_adds_its_programs(start, a.pat, nothing, a.pat_section, a.pat_fill, entries);
    let kept = Analysis {
        pat: if a.pat_fill.len() < 3 {
            a.pat_fill
        } else {
            Seq::empty()
        },
        ..start
    };
    let known = with_programs(kept, entries);
    law_every_program_is_noted(kept, entries, a.pmt_pid);
    law_every_program_is_noted(kept, entries, a.stream.pid);
    assert(entries[0] == (program, a.pmt_pid));
    assert(gives(entries, a.pmt_pid, program));
    assert(!start.pmts.dom().contains(a.stream.pid));
    law_table_replaces_its_program(
        known,
        a.pmt,
        nothing,
        a.pmt_section,
        a.pmt_fill,
        program,
        seq![a.stream],
    );
    assert(start.programs =~= Map::<u16, Seq<StreamInfo>>::empty());
    let said = with_packet(known, a.pmt).unwrap();
    assert(!said.pmts.contains_key(a.stream.pid));
}

/// Packets of the stream add nothing to what the tables said.
proof fn lemma_media_says_nothing(a: Announcement, media: Seq<Seq<u8>>)
    requires
        is_announced(a),
        forall|i: int| 0 <= i < media.len() ==> pid_of(#[trigger] media[i]) == a.stream.pid,
    ensures
        analyzed(seq![a.pat, a.pmt] + media) == analyzed(seq![a.pat, a.pmt]),
    decreases media.len(),
{
    let tables = seq![a.pat, a.pmt];
    lemma_tables(a);
    if media.len() == 0 {
        assert(tables + media =~= tables);
    } else {
        let head = media.drop_last();
        assert forall|i: int| 0 <= i < head.len() implies pid_of(#[trigger] head[i])
            == a.stream.pid by {
            assert(head[i] == media[i]);
        }
        lemma_media_says_nothing(a, head);
        assert(tables + media =~= (tables + head).push(media.last()));
        law_packets_are_read_in_turn(tables + head, media.last());
        assert(media.last() == media[media.len() - 1]);
        law_other_packets_say_nothing(analyzed(tables).unwrap(), media.last());
    }
}

/// One program has one list.
proof fn lemma_one_program(programs: Map<u16, Seq<StreamInfo>>, program: u16, stream: StreamInfo)
    requires
        programs == Map::<u16, Seq<StreamInfo>>::empty().insert(program, seq![stream]),
        stream.kind is Some,
    ensures
        streams_of(programs) == seq![stream],
{
    lemma_streams_gap(programs, (program + 1) as nat, 65536);
    lemma_streams_gap(programs, 0, program as nat);
    reveal(Seq::filter);
    assert(seq![stream].drop_last() =~= Seq::<StreamInfo>::empty());
    assert(supported(seq![stream].drop_last()) =~= Seq::<StreamInfo>::empty());
    assert(supported(seq![stream]) =~= seq![stream]);
    assert(streams_below(programs, (program + 1) as nat) =~= seq![stream]);
}

/// The packets of the stream are its own.
proof fn lemma_own_media(tables: Seq<Seq<u8>>, media: Seq<Seq<u8>>, pid: u16)
    requires
        forall|i: int| 0 <= i < tables.len() ==> pid_of(#[trigger] tables[i]) != pid,
        forall|i: int|
            0 <= i < media.len() ==> pid_of(#[trigger] media[i]) == pid && payload_of(media[i])
                is Some,
    ensures
        own_packets(tables + media, pid) == media,
{
    let own = |p: Seq<u8>| pid_of(p) == pid && payload_of(p) is Some;
    Seq::filter_distributes_over_add(tables, media, own);
    tables.lemma_all_neg_filter_empty(own);
    lemma_all_kept(media, own);
    assert(tables.filter(own) + media.filter(own) =~= media);
}

/// A list of which everything is kept.
proof fn lemma_all_kept(list: Seq<Seq<u8>>, keep: spec_fn(Seq<u8>) -> bool)
    requires
        forall|i: int| 0 <= i < list.len() ==> keep(#[trigger] list[i]),
    ensures
        list.filter(keep) == list,
    decreases list.len(),
{
    if list.len() == 0 {
        reveal(Seq::filter);
        assert(list.filter(keep) =~= list);
    } else {
        let head = list.drop_last();
        assert forall|i: int| 0 <= i < head.len() implies keep(#[trigger] head[i]) by {
            assert(head[i] == list[i]);
        }
        lemma_all_kept(head, keep);
        head.lemma_filter_push(list.last(), keep);
        assert(list.last() == list[list.len() - 1]);
        assert(head.push(list.last()) =~= list);
    }
}

/// A file with one stream comes apart into that stream: two tables that announce
/// it, and its packets, whole and in order, give one output, named after the
/// file and the kind of the stream, with the elementary bytes of all its PES
/// packets, one after the other.
pub proof fn law_file_comes_apart(
    a: Announcement,
    media: Seq<Seq<u8>>,
    input: PathView,
    base: Seq<u8>,
    extension: Option<Seq<u8>>,
)
    requires
        is_announced(a),
        are_frames(seq![a.pat, a.pmt] + media, 188),
        forall|i: int| 0 <= i < media.len() ==> pid_of(#[trigger] media[i]) == a.stream.pid,
        run_on(media),
        all_whole(pes_packets(media)),
        all_elementary(pes_packets(media)).len() > 0,
        input.name matches Some(name) && is_cut(name, base, extension),
        valid_utf8(base),
    ensures
        streams_in(joined(seq![a.pat, a.pmt] + media)) == Ok::<Seq<StreamInfo>, DemuxError>(
            seq![a.stream],
        ),
        demuxed(joined(seq![a.pat, a.pmt] + media), input) == Ok::<
            Seq<(Seq<u8>, Seq<u8>)>,
            DemuxError,
        >(seq![(single_name(base, a.stream), all_elementary(pes_packets(media)))]),
{
    let tables = seq![a.pat, a.pmt];
    let frames = tables + media;
    let data = joined(frames);
    if media.len() == 0 {
        assert(pes_packets(media) =~= Seq::<Seq<u8>>::empty());
        assert(all_elementary(pes_packets(media)) =~= Seq::<u8>::empty());
    }
    law_plain_file_is_read(frames);
    lemma_tables(a);
    lemma_media_says_nothing(a, media);
    lemma_one_program(
        analyzed(frames).unwrap().programs,
        a.stream.program_number,
        a.stream,
    );
    law_file_is_its_packets(data);
    law_one_stream_takes_the_name(data, input, base, extension, a.stream);
    lemma_own_media(tables, media, a.stream.pid);
    law_undamaged_streams_come_out(data, input);
    assert(demuxed(data, input).unwrap() =~= seq![
        (single_name(base, a.stream), all_elementary(pes_packets(media))),
    ]);
}

} // verus!
