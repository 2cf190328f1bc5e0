//! Reading the payload bytes of one packet identifier.

use vstd::prelude::*;
use vstd::slice::slice_subrange;

use crate::bytes::append;
use crate::packet::find_payload;
use crate::packet::payload_offset;
use crate::packet::pid_of;
use crate::packet::unit_at;
use crate::packet::M2TS_PACKET_SIZE;
use crate::packet::SYNC_BYTE;
use crate::packet::TS_PACKET_SIZE;
use crate::bytes::read_be13;

verus! {

/// Why a payload stream has no more bytes.
#[derive(Clone, Copy, Debug, PartialEq, Eq, Structural)]
pub enum StreamEnd {
    /// Fewer bytes than a packet are left.
    Eof,
    /// A packet does not begin with the sync byte.
    LostSync,
    /// An adaptation field claims more than its packet holds.
    InvalidAdaptation,
}

/// The bytes of a payload stream, and what ends it.
pub struct PayloadStream {
    pub bytes: Seq<u8>,
    pub end: StreamEnd,
}

/// What lies next in a stream of packets: a payload, or its end.
pub enum Next {
    Payload(Seq<u8>),
    End(StreamEnd),
}

/// What comes next from `pos` for `pid`, and where reading goes on after it.
pub open spec fn next_payload(data: Seq<u8>, pos: int, size: int, pid: u16) -> (Next, int)
    decreases data.len() - pos,
{
    if pos < 0 || size < TS_PACKET_SIZE || pos + size > data.len() {
        (Next::End(StreamEnd::Eof), pos)
    } else {
        let p = unit_at(data, pos, size);
        if p[0] != SYNC_BYTE {
            (Next::End(StreamEnd::LostSync), pos + size)
        } else if pid_of(p) != pid {
            next_payload(data, pos + size, size, pid)
        } else {
            match payload_offset(p) {
                None => next_payload(data, pos + size, size, pid),
                Some(start) => if start > TS_PACKET_SIZE {
                    (Next::End(StreamEnd::InvalidAdaptation), pos + size)
                } else if start == TS_PACKET_SIZE {
                    next_payload(data, pos + size, size, pid)
                } else {
                    (Next::Payload(p.skip(start)), pos + size)
                },
            }
        }
    }
}

/// The payload bytes of `pid` in the packets from `pos` on, up to the end of
/// the data or the first packet that cannot be read.
pub open spec fn payload_stream(data: Seq<u8>, pos: int, size: int, pid: u16) -> PayloadStream
    decreases data.len() - pos,
{
    if pos < 0 || size < TS_PACKET_SIZE || pos + size > data.len() {
        PayloadStream { bytes: Seq::empty(), end: StreamEnd::Eof }
    } else {
        let p = unit_at(data, pos, size);
        let rest = payload_stream(data, pos + size, size, pid);
        if p[0] != SYNC_BYTE {
            PayloadStream { bytes: Seq::empty(), end: StreamEnd::LostSync }
        } else if pid_of(p) != pid {
            rest
        } else {
            match payload_offset(p) {
                None => rest,
                Some(start) => if start > TS_PACKET_SIZE {
                    PayloadStream { bytes: Seq::empty(), end: StreamEnd::InvalidAdaptation }
                } else {
                    PayloadStream { bytes: p.skip(start) + rest.bytes, end: rest.end }
                },
            }
        }
    }
}

/// Where a reader stands once the stream is over: behind the packet that cannot
/// be read, or where fewer bytes than a packet are left.
pub open spec fn stream_stop(data: Seq<u8>, pos: int, size: int, pid: u16) -> int
    decreases data.len() - pos,
{
    if pos < 0 || size < TS_PACKET_SIZE || pos + size > data.len() {
        pos
    } else {
        let p = unit_at(data, pos, size);
        let broken = p[0] != SYNC_BYTE || (pid_of(p) == pid && (payload_offset(p) matches Some(
            start,
        ) && start > TS_PACKET_SIZE));
        if broken {
            pos + size
        } else {
            stream_stop(data, pos + size, size, pid)
        }
    }
}

/// The stream is its next payload followed by the stream after it.
proof fn lemma_stream_by_payload(data: Seq<u8>, pos: int, size: int, pid: u16)
    requires
        pos <= data.len(),
    ensures
        ({
            let stream = payload_stream(data, pos, size, pid);
            let (next, after) = next_payload(data, pos, size, pid);
            &&& pos <= after <= data.len()
            &&& match next {
                Next::Payload(p) => {
                    let rest = payload_stream(data, after, size, pid);
                    p.len() > 0 && pos < after && stream.bytes == p + rest.bytes && stream.end
                        == rest.end && stream_stop(data, pos, size, pid) == stream_stop(
                        data,
                        after,
                        size,
                        pid,
                    )
                },
                Next::End(end) => stream.bytes.len() == 0 && stream.end == end && stream_stop(
                    data,
                    pos,
                    size,
                    pid,
                ) == after,
            }
        }),
    decreases data.len() - pos,
{
    if pos < 0 || size < TS_PACKET_SIZE || pos + size > data.len() {
    } else {
        lemma_stream_by_payload(data, pos + size, size, pid);
        let p = unit_at(data, pos, size);
        let rest = payload_stream(data, pos + size, size, pid);
        if p[0] == SYNC_BYTE && pid_of(p) == pid {
            if let Some(start) = payload_offset(p) {
                if start == TS_PACKET_SIZE {
                    assert(p.skip(start) + rest.bytes =~= rest.bytes);
                }
            }
        }
    }
}

/// A stream holds no more bytes than the packets it is read from.
pub proof fn lemma_stream_len(data: Seq<u8>, pos: int, size: int, pid: u16)
    requires
        0 <= pos <= data.len(),
    ensures
        payload_stream(data, pos, size, pid).bytes.len() <= data.len() - pos,
    decreases data.len() - pos,
{
    if size >= TS_PACKET_SIZE && pos + size <= data.len() {
        lemma_stream_len(data, pos + size, size, pid);
    }
}

/// Reads the payload bytes of one packet identifier.
pub struct TsPayloadReader<'a> {
    pub data: &'a [u8],
    pub pos: usize,
    pub target_pid: u16,
    pub packet_size: usize,
    pub buffer: &'a [u8],
    pub offset: usize,
    pub eof: bool,
}

impl<'a> TsPayloadReader<'a> {
    pub open spec fn wf(&self) -> bool {
        &&& self.packet_size == TS_PACKET_SIZE || self.packet_size == M2TS_PACKET_SIZE
        &&& self.pos <= self.data@.len()
        &&& self.offset <= self.buffer@.len()
        &&& self.eof ==> self.pos + self.packet_size > self.data@.len()
    }

    /// The stream from the reader's packet position on.
    pub open spec fn ahead(&self) -> PayloadStream {
        payload_stream(self.data@, self.pos as int, self.packet_size as int, self.target_pid)
    }

    /// What the reader has still to give.
    pub open spec fn remaining(&self) -> PayloadStream {
        PayloadStream {
            bytes: self.buffer@.skip(self.offset as int) + self.ahead().bytes,
            end: self.ahead().end,
        }
    }

    /// Both readers read the same packets.
    pub open spec fn same_source(&self, other: &Self) -> bool {
        &&& self.data == other.data
        &&& self.target_pid == other.target_pid
        &&& self.packet_size == other.packet_size
    }

    /// Where the reader will stand once the stream is over.
    pub open spec fn stop(&self) -> int {
        stream_stop(self.data@, self.pos as int, self.packet_size as int, self.target_pid)
    }

    /// The reader has nothing left of what another reader of the same packets
    /// had: it stands where the stream ends or breaks off.
    pub open spec fn ran_out(&self, before: &Self) -> bool {
        &&& self.pos == before.stop()
        &&& self.offset == self.buffer@.len()
    }

    /// A reader at the first packet of `data`.
    pub fn open(data: &'a [u8], packet_size: usize, target_pid: u16) -> (reader: Self)
        requires
            packet_size == TS_PACKET_SIZE || packet_size == M2TS_PACKET_SIZE,
        ensures
            reader.wf(),
            reader.data == data,
            reader.packet_size == packet_size,
            reader.target_pid == target_pid,
            reader.pos == 0,
            reader.buffer@.len() == 0,
            reader.offset == 0,
            !reader.eof,
            reader.remaining() == payload_stream(data@, 0, packet_size as int, target_pid),
    {
        let buffer = slice_subrange(data, 0, 0);
        let reader = TsPayloadReader {
            data,
            pos: 0,
            target_pid,
            packet_size,
            buffer,
            offset: 0,
            eof: false,
        };
        assert(reader.remaining().bytes =~= reader.ahead().bytes);
        reader
    }

    /// Replaces the buffer by the next payload. `Ok(false)` at the end of the
    /// data; an error at a packet that cannot be read, with the reader behind
    /// that packet.
    pub fn load_payload(&mut self) -> (result: Result<bool, StreamEnd>)
        requires
            old(self).wf(),
        ensures
            final(self).wf(),
            final(self).same_source(&*old(self)),
            final(self).offset == 0,
            ({
                let (next, after) = next_payload(
                    old(self).data@,
                    old(self).pos as int,
                    old(self).packet_size as int,
                    old(self).target_pid,
                );
                &&& final(self).pos == after
                &&& match next {
                    Next::Payload(p) => result == Ok::<bool, StreamEnd>(true)
                        && final(self).buffer@ == p && final(self).eof == old(self).eof,
                    Next::End(StreamEnd::Eof) => result == Ok::<bool, StreamEnd>(false)
                        && final(self).buffer@.len() == 0 && final(self).eof,
                    Next::End(end) => result == Err::<bool, StreamEnd>(end)
                        && final(self).buffer@.len() == 0 && final(self).eof == old(self).eof,
                }
            }),
    {
        self.buffer = slice_subrange(self.data, 0, 0);
        self.offset = 0;
        loop
            invariant
                self.wf(),
                self.same_source(&*old(self)),
                self.offset == 0,
                self.buffer@.len() == 0,
                self.eof == old(self).eof,
                next_payload(
                    old(self).data@,
                    old(self).pos as int,
                    old(self).packet_size as int,
                    old(self).target_pid,
                ) == next_payload(
                    self.data@,
                    self.pos as int,
                    self.packet_size as int,
                    self.target_pid,
                ),
            decreases self.data@.len() - self.pos,
        {
            if self.packet_size > self.data.len() - self.pos {
                self.eof = true;
                return Ok(false);
            }
            let end: usize = self.pos + self.packet_size;
            let p = slice_subrange(self.data, end - TS_PACKET_SIZE, end);
            assert(p@ == unit_at(self.data@, self.pos as int, self.packet_size as int));
            self.pos = end;
            if p[0] != SYNC_BYTE {
                return Err(StreamEnd::LostSync);
            }
            if read_be13(p[1], p[2]) != self.target_pid {
                continue;
            }
            match find_payload(p) {
                None => {},
                Some(start) => {
                    if start > TS_PACKET_SIZE {
                        return Err(StreamEnd::InvalidAdaptation);
                    }
                    if start < TS_PACKET_SIZE {
                        self.buffer = slice_subrange(p, start, TS_PACKET_SIZE);
                        assert(self.buffer@ =~= p@.skip(start as int));
                        return Ok(true);
                    }
                },
            }
        }
    }

    /// Takes up to `want` bytes, fewer only at the end of the data. Fails where
    /// the stream breaks off before `want` bytes, with the reader behind the
    /// packet that cannot be read.
    #[verifier::rlimit(30)]
    pub fn read(&mut self, want: usize) -> (result: Result<Vec<u8>, StreamEnd>)
        requires
            old(self).wf(),
        ensures
            final(self).wf(),
            final(self).same_source(&*old(self)),
            ({
                let all = old(self).remaining();
                if all.bytes.len() >= want {
                    &&& result matches Ok(out) && out@ == all.bytes.take(want as int)
                    &&& final(self).remaining().bytes == all.bytes.skip(want as int)
                    &&& final(self).remaining().end == all.end
                    &&& final(self).stop() == old(self).stop()
                    &&& final(self).eof == old(self).eof
                } else if all.end == StreamEnd::Eof {
                    &&& result matches Ok(out) && out@ == all.bytes
                    &&& final(self).ran_out(&*old(self))
                    &&& final(self).remaining().bytes.len() == 0
                    &&& final(self).remaining().end == StreamEnd::Eof
                    &&& final(self).eof
                } else {
                    &&& result matches Err(end) && end == all.end
                    &&& final(self).ran_out(&*old(self))
                    &&& final(self).eof == old(self).eof
                }
            }),
    {
        let mut out: Vec<u8> = Vec::new();
        let ghost all = self.remaining();
        assert(all.bytes =~= out@ + self.remaining().bytes);
        while out.len() < want
            invariant_except_break
                self.eof == old(self).eof,
            invariant
                self.wf(),
                self.same_source(&*old(self)),
                out@.len() <= want,
                all == old(self).remaining(),
                all.bytes == out@ + self.remaining().bytes,
                all.end == self.remaining().end,
                self.stop() == old(self).stop(),
            ensures
                out@.len() == want ==> self.eof == old(self).eof,
                out@.len() < want ==> self.eof,
                out@.len() == want || (self.remaining().bytes.len() == 0 && all.end
                    == StreamEnd::Eof && self.ran_out(&*old(self))),
            decreases want - out@.len(),
        {
            if self.offset == self.buffer.len() {
                proof {
                    lemma_stream_by_payload(
                        self.data@,
                        self.pos as int,
                        self.packet_size as int,
                        self.target_pid,
                    );
                    assert(self.remaining().bytes =~= self.ahead().bytes);
                }
                if self.eof {
                    break;
                }
                match self.load_payload() {
                    Err(end) => {
                        return Err(end);
                    },
                    Ok(false) => {
                        assert(self.remaining().bytes =~= Seq::<u8>::empty());
                        break;
                    },
                    Ok(true) => {
                        assert(self.buffer@.skip(0) =~= self.buffer@);
                    },
                }
            }
            let ghost before = self.remaining().bytes;
            let ghost out_before = out@;
            let available: usize = self.buffer.len() - self.offset;
            let missing: usize = want - out.len();
            let take: usize = if available < missing { available } else { missing };
            let chunk = slice_subrange(self.buffer, self.offset, self.offset + take);
            append(&mut out, chunk);
            self.offset = self.offset + take;
            proof {
                assert(before =~= chunk@ + self.remaining().bytes);
                assert(all.bytes =~= out@ + self.remaining().bytes);
            }
        }
        proof {
            if all.bytes.len() >= want {
                assert(out@ =~= all.bytes.take(want as int));
                assert(self.remaining().bytes =~= all.bytes.skip(want as int));
            } else {
                assert(out@ =~= all.bytes);
            }
        }
        Ok(out)
    }

    /// Takes exactly `want` bytes. Fails with what ended the stream where it
    /// holds fewer.
    pub fn read_exact(&mut self, want: usize) -> (result: Result<Vec<u8>, StreamEnd>)
        requires
            old(self).wf(),
        ensures
            final(self).wf(),
            final(self).same_source(&*old(self)),
            ({
                let all = old(self).remaining();
                if all.bytes.len() >= want {
                    &&& result matches Ok(out) && out@ == all.bytes.take(want as int)
                    &&& final(self).remaining().bytes == all.bytes.skip(want as int)
                    &&& final(self).remaining().end == all.end
                    &&& final(self).stop() == old(self).stop()
                    &&& final(self).eof == old(self).eof
                } else {
                    &&& result matches Err(end) && end == all.end
                    &&& final(self).ran_out(&*old(self))
                    &&& final(self).eof == (all.end == StreamEnd::Eof)
                }
            }),
    {
        let out = self.read(want)?;
        if out.len() < want {
            return Err(StreamEnd::Eof);
        }
        Ok(out)
    }
}

} // verus!
