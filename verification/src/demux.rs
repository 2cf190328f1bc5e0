//! Taking the elementary streams out of a transport stream.

use std::collections::HashMap;

use vstd::prelude::*;
use vstd::slice::slice_to_vec;

use crate::error::DemuxError;
use crate::packet::pid_of;
use crate::packet::TsPacket;
use crate::paths::FilePath;
use crate::paths::OutputPath;
use crate::paths::OutputView;
use crate::paths::PathView;
use crate::pes::fresh_stream;
use crate::pes::received;
use crate::pes::PesState;
use crate::pes::StreamWriter;
use crate::plan::distinct_pids;
use crate::plan::plan_targets;
use crate::plan::raw_plan;
use crate::plan::target_views;
use crate::plan::Target;
use crate::sync::packets_of;
use crate::sync::PacketReader;

verus! {

/// All planned streams before the first packet.
pub open spec fn fresh_streams(targets: Seq<(u16, Seq<u8>)>) -> Map<u16, PesState> {
    Map::new(
        |pid: u16| exists|i: int| 0 <= i < targets.len() && (#[trigger] targets[i]).0 == pid,
        |pid: u16| fresh_stream(),
    )
}

/// A packet reaches its stream, if that is one of those planned.
pub open spec fn delivered(streams: Map<u16, PesState>, packet: Seq<u8>) -> Result<
    Map<u16, PesState>,
    DemuxError,
> {
    let pid = pid_of(packet);
    if !streams.contains_key(pid) {
        Ok(streams)
    } else {
        match received(streams[pid], packet) {
            (after, Ok(())) => Ok(streams.insert(pid, after)),
            (_, Err(e)) => Err(e),
        }
    }
}

/// A run of packets reaches its streams, up to the first that fails.
pub open spec fn all_delivered(streams: Map<u16, PesState>, packets: Seq<Seq<u8>>) -> Result<
    Map<u16, PesState>,
    DemuxError,
>
    decreases packets.len(),
{
    if packets.len() == 0 {
        Ok(streams)
    } else {
        match all_delivered(streams, packets.drop_last()) {
            Err(e) => Err(e),
            Ok(before) => delivered(before, packets.last()),
        }
    }
}

/// Reading stopped at a packet that its stream could not take: the packets
/// before it have been taken, and its stream is as the packet left it.
pub open spec fn stopped_at(
    streams: Map<u16, PesState>,
    packets: Seq<Seq<u8>>,
    index: int,
    after: Map<u16, PesState>,
) -> bool {
    let pid = pid_of(packets[index]);
    &&& 0 <= index < packets.len()
    &&& all_delivered(streams, packets.take(index)) matches Ok(before)
    &&& before.contains_key(pid)
    &&& received(before[pid], packets[index]).1 is Err
    &&& after == before.insert(pid, received(before[pid], packets[index]).0)
}

/// Whether what was read of a stream may be kept: not where it ends inside a
/// header, and not where it is empty.
pub open spec fn stream_verdict(pid: u16, state: PesState) -> Result<(), DemuxError> {
    if state.awaiting {
        Err(DemuxError::IncompletePesHeader(pid))
    } else if state.output.len() == 0 {
        Err(DemuxError::EmptyStream(pid))
    } else {
        Ok(())
    }
}

/// The first verdict against one of the streams from `from` on.
pub open spec fn verdict_from(
    targets: Seq<(u16, Seq<u8>)>,
    streams: Map<u16, PesState>,
    from: int,
) -> Result<(), DemuxError>
    decreases targets.len() - from,
{
    if from >= targets.len() {
        Ok(())
    } else {
        match stream_verdict(targets[from].0, streams[targets[from].0]) {
            Err(e) => Err(e),
            Ok(()) => verdict_from(targets, streams, from + 1),
        }
    }
}

/// The outputs of a file: name and bytes of each, in the order of the names.
pub open spec fn demuxed(data: Seq<u8>, input: PathView) -> Result<
    Seq<(Seq<u8>, Seq<u8>)>,
    DemuxError,
> {
    match raw_plan(data, input) {
        Err(e) => Err(e),
        Ok(targets) => match packets_of(data) {
            Err(e) => Err(e),
            Ok(packets) => match all_delivered(fresh_streams(targets), packets) {
                Err(e) => Err(e),
                Ok(streams) => match verdict_from(targets, streams, 0) {
                    Err(e) => Err(e),
                    Ok(()) => Ok(
                        targets.map_values(
                            |t: (u16, Seq<u8>)| (t.1, streams[t.0].output),
                        ),
                    ),
                },
            },
        },
    }
}

/// A run of packets fails where a part of it does.
proof fn lemma_delivered_fails(streams: Map<u16, PesState>, packets: Seq<Seq<u8>>, count: int)
    requires
        0 <= count <= packets.len(),
    ensures
        all_delivered(streams, packets.take(count)) is Err ==> all_delivered(streams, packets)
            == all_delivered(streams, packets.take(count)),
    decreases packets.len(),
{
    if count == packets.len() {
        assert(packets.take(count) =~= packets);
    } else {
        lemma_delivered_fails(streams, packets.drop_last(), count);
        assert(packets.drop_last().take(count) =~= packets.take(count));
    }
}

/// What each writer has read.
pub open spec fn states(writers: Map<u16, StreamWriter>) -> Map<u16, PesState> {
    writers.map_values(|w: StreamWriter| w@)
}

/// All writers are well formed.
pub open spec fn all_wf(writers: Map<u16, StreamWriter>) -> bool {
    forall|pid: u16| #[trigger] writers.contains_key(pid) ==> writers[pid].wf()
}

/// A writer for each planned stream.
pub fn open_writers(targets: &Vec<Target>) -> (writers: HashMap<u16, StreamWriter>)
    ensures
        all_wf(writers@),
        states(writers@) == fresh_streams(target_views(targets@)),
{
    let mut writers: HashMap<u16, StreamWriter> = HashMap::new();
    let ghost all = target_views(targets@);
    let mut i: usize = 0;
    assert(states(writers@) =~= fresh_streams(all.take(0)));
    while i < targets.len()
        invariant
            i <= targets@.len(),
            all == target_views(targets@),
            all_wf(writers@),
            states(writers@) == fresh_streams(all.take(i as int)),
        decreases targets@.len() - i,
    {
        let ghost before = writers@;
        writers.insert(targets[i].pid, StreamWriter::new());
        proof {
            let pid = targets@[i as int].pid;
            let next = all.take(i + 1);
            assert(next[i as int].0 == pid);
            assert forall|p: u16| #[trigger] fresh_streams(next).contains_key(p) <==> (
            fresh_streams(all.take(i as int)).contains_key(p) || p == pid) by {
                if fresh_streams(all.take(i as int)).contains_key(p) {
                    let k = choose|k: int|
                        0 <= k < i && (#[trigger] all.take(i as int)[k]).0 == p;
                    assert(next[k].0 == p);
                }
                if fresh_streams(next).contains_key(p) && p != pid {
                    let k = choose|k: int| 0 <= k < i + 1 && (#[trigger] next[k]).0 == p;
                    assert(all.take(i as int)[k].0 == p);
                }
            }
            assert forall|p: u16| #[trigger] states(writers@).contains_key(p) implies states(
                writers@,
            )[p] == fresh_stream() by {
                if p != pid {
                    assert(states(before).contains_key(p));
                    assert(states(before)[p] == fresh_streams(all.take(i as int))[p]);
                }
            }
            assert forall|p: u16| #[trigger] states(writers@).contains_key(p) <==> fresh_streams(
                next,
            ).contains_key(p) by {
                assert(states(before).contains_key(p) == fresh_streams(
                    all.take(i as int),
                ).contains_key(p));
            }
            assert(states(writers@) =~= fresh_streams(next));
        }
        i += 1;
    }
    assert(all.take(i as int) =~= all);
    writers
}

/// Hands a packet to its writer.
fn deliver(writers: &mut HashMap<u16, StreamWriter>, packet: &TsPacket<'_>) -> (result:
    Result<(), DemuxError>)
    requires
        all_wf(old(writers)@),
        packet.wf(),
    ensures
        all_wf(final(writers)@),
        match delivered(states(old(writers)@), packet@) {
            Ok(after) => result is Ok && states(final(writers)@) == after,
            Err(e) => {
                let before = states(old(writers)@);
                &&& result == Err::<(), DemuxError>(e)
                &&& before.contains_key(packet.pid)
                &&& states(final(writers)@) == before.insert(
                    packet.pid,
                    received(before[packet.pid], packet@).0,
                )
            },
        },
{
    match writers.remove(&packet.pid) {
        None => {
            assert(states(writers@) =~= states(old(writers)@));
            Ok(())
        },
        Some(mut writer) => {
            let result = writer.receive(packet);
            let ghost after = writer@;
            writers.insert(packet.pid, writer);
            assert(states(writers@) =~= states(old(writers)@).insert(packet.pid, after));
            result
        },
    }
}

/// Reads all packets of a file into the writers of their streams. Fails where
/// the file cannot be read as a transport stream, and at the first packet that
/// its stream cannot take.
pub fn write_raw_streams(data: &[u8], writers: &mut HashMap<u16, StreamWriter>) -> (result: Result<
    (),
    DemuxError,
>)
    requires
        all_wf(old(writers)@),
    ensures
        all_wf(final(writers)@),
        match packets_of(data@) {
            Err(e) => result == Err::<(), DemuxError>(e) && final(writers)@ == old(writers)@,
            Ok(packets) => match all_delivered(states(old(writers)@), packets) {
                Ok(after) => result is Ok && states(final(writers)@) == after,
                Err(e) => result == Err::<(), DemuxError>(e) && exists|index: int| #[trigger]
                    stopped_at(
                        states(old(writers)@),
                        packets,
                        index,
                        states(final(writers)@),
                    ),
            },
        },
{
    let mut reader = match PacketReader::open(data) {
        Ok(reader) => reader,
        Err(e) => {
            return Err(e);
        },
    };
    let ghost all = reader.ahead();
    let ghost mut count: int = 0;
    assert(all.take(0) =~= Seq::<Seq<u8>>::empty());
    assert(all.skip(0) =~= all);
    loop
        invariant
            reader.wf(),
            all_wf(writers@),
            0 <= count <= all.len(),
            reader.ahead() == all.skip(count),
            packets_of(data@) == Ok::<Seq<Seq<u8>>, DemuxError>(all),
            all_delivered(states(old(writers)@), all.take(count)) == Ok::<
                Map<u16, PesState>,
                DemuxError,
            >(states(writers@)),
        ensures
            count == all.len(),
        decreases all.len() - count,
    {
        let packet = match reader.next_packet() {
            Some(packet) => packet,
            None => {
                break;
            },
        };
        proof {
            assert(packet@ == all[count]);
            assert(all.take(count + 1).drop_last() =~= all.take(count));
            lemma_delivered_fails(states(old(writers)@), all, count + 1);
            assert(reader.ahead() =~= all.skip(count + 1));
        }
        match deliver(writers, &packet) {
            Ok(()) => {},
            Err(e) => {
                assert(stopped_at(states(old(writers)@), all, count, states(writers@)));
                return Err(e);
            },
        }
        proof {
            count = count + 1;
        }
    }
    assert(all.take(count) =~= all);
    Ok(())
}

/// Delivering packets keeps the set of streams.
proof fn lemma_delivered_keys(streams: Map<u16, PesState>, packets: Seq<Seq<u8>>)
    ensures
        all_delivered(streams, packets) matches Ok(after) ==> after.dom() == streams.dom(),
    decreases packets.len(),
{
    if packets.len() > 0 {
        lemma_delivered_keys(streams, packets.drop_last());
        if let Ok(before) = all_delivered(streams, packets.drop_last()) {
            if let Ok(after) = delivered(before, packets.last()) {
                assert(after.dom() =~= before.dom());
            }
        }
    }
}

/// Whether what was read of the streams may be kept. Fails at the first output,
/// in their order, whose stream ends inside a header or is empty.
pub fn validate_raw_outputs(targets: &Vec<Target>, writers: &HashMap<u16, StreamWriter>) -> (result:
    Result<(), DemuxError>)
    requires
        forall|i: int|
            0 <= i < targets@.len() ==> writers@.contains_key((#[trigger] targets@[i]).pid),
    ensures
        result == verdict_from(target_views(targets@), states(writers@), 0),
{
    let ghost all = target_views(targets@);
    let mut i: usize = 0;
    while i < targets.len()
        invariant
            i <= targets@.len(),
            all == target_views(targets@),
            forall|k: int|
                0 <= k < targets@.len() ==> writers@.contains_key((#[trigger] targets@[k]).pid),
            verdict_from(all, states(writers@), 0) == verdict_from(
                all,
                states(writers@),
                i as int,
            ),
        decreases targets@.len() - i,
    {
        let pid: u16 = targets[i].pid;
        assert(all[i as int].0 == pid);
        if let Some(writer) = writers.get(&pid) {
            assert(states(writers@)[pid] == writer@);
            if writer.awaiting_pes_header {
                return Err(DemuxError::IncompletePesHeader(pid));
            }
            if writer.output.len() == 0 {
                return Err(DemuxError::EmptyStream(pid));
            }
        }
        i += 1;
    }
    Ok(())
}

/// One output: its path and its bytes.
pub struct RawOutput {
    pub path: OutputPath,
    pub bytes: Vec<u8>,
}

impl View for RawOutput {
    type V = (OutputView, Seq<u8>);

    open spec fn view(&self) -> (OutputView, Seq<u8>) {
        (self.path@, self.bytes@)
    }
}

/// The contents of a list of outputs.
pub open spec fn raw_views(outputs: Seq<RawOutput>) -> Seq<(OutputView, Seq<u8>)> {
    outputs.map_values(|o: RawOutput| o@)
}

/// Takes the elementary streams out of `data`: the path of each in
/// `output_dir`, in order, and its bytes. Fails where there is nothing to plan
/// (see [`plan_raw_outputs`](crate::plan::plan_raw_outputs)), at the first
/// packet that its stream cannot take, and where a stream ends inside a header
/// or is empty.
pub fn demux_raw(data: &[u8], input: &FilePath, output_dir: &[u8]) -> (result: Result<
    Vec<RawOutput>,
    DemuxError,
>)
    ensures
        match demuxed(data@, input@) {
            Ok(list) => result matches Ok(outputs) && raw_views(outputs@) == list.map_values(
                |o: (Seq<u8>, Seq<u8>)| (OutputView::InDir(output_dir@, o.0), o.1),
            ),
            Err(e) => result matches Err(err) && err == e,
        },
{
    let targets = plan_targets(data, input)?;
    let ghost all = target_views(targets@);
    let mut writers = open_writers(&targets);
    let ghost fresh = states(writers@);
    write_raw_streams(data, &mut writers)?;
    proof {
        if let Ok(packets) = packets_of(data@) {
            lemma_delivered_keys(fresh, packets);
        }
        assert forall|i: int| 0 <= i < targets@.len() implies writers@.contains_key(
            (#[trigger] targets@[i]).pid,
        ) by {
            assert(all[i].0 == targets@[i].pid);
            assert(fresh.contains_key(targets@[i].pid));
            assert(fresh.dom().contains(targets@[i].pid));
            assert(states(writers@).dom().contains(targets@[i].pid));
        }
    }
    validate_raw_outputs(&targets, &writers)?;
    let ghost done = states(writers@);
    let mut outputs: Vec<RawOutput> = Vec::new();
    let mut i: usize = 0;
    while i < targets.len()
        invariant
            i <= targets@.len(),
            outputs@.len() == i,
            all == target_views(targets@),
            distinct_pids(all),
            forall|k: int|
                i <= k < targets@.len() ==> writers@.contains_key((#[trigger] targets@[k]).pid)
                    && writers@[targets@[k].pid]@ == done[targets@[k].pid],
            forall|k: int|
                0 <= k < i ==> (#[trigger] outputs@[k])@ == (
                    OutputView::InDir(output_dir@, targets@[k].name@),
                    done[targets@[k].pid].output,
                ),
        decreases targets@.len() - i,
    {
        let pid: u16 = targets[i].pid;
        assert forall|k: int| i < k < targets@.len() implies (#[trigger] targets@[k]).pid != pid by {
            assert(all[i as int].0 != all[k].0);
        }
        if let Some(writer) = writers.remove(&pid) {
            let name = slice_to_vec(&targets[i].name);
            let path = OutputPath::InDir(slice_to_vec(output_dir), name);
            outputs.push(RawOutput { path, bytes: writer.output });
        }
        i += 1;
    }
    proof {
        let list = all.map_values(|t: (u16, Seq<u8>)| (t.1, done[t.0].output));
        assert(raw_views(outputs@) =~= list.map_values(
            |o: (Seq<u8>, Seq<u8>)| (OutputView::InDir(output_dir@, o.0), o.1),
        ));
    }
    Ok(outputs)
}

} // verus!
