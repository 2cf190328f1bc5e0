//! Finding packets: the layout of a file, and the way back after damage.

use vstd::prelude::*;
use vstd::slice::slice_subrange;

use crate::error::DemuxError;
use crate::packet::unit_at;
use crate::packet::TsPacket;
use crate::packet::M2TS_PACKET_SIZE;
use crate::packet::SYNC_BYTE;
use crate::packet::TS_PACKET_SIZE;

verus! {

/// The layout of a file is judged by this many of its first bytes.
pub const PROBE_SIZE: usize = 1048576;

/// `count` sync bytes, `size` apart, from `pos` on.
pub open spec fn sync_run(data: Seq<u8>, pos: int, size: int, count: nat) -> bool
    decreases count,
{
    count == 0 || (0 <= pos < data.len() && data[pos] == SYNC_BYTE && sync_run(
        data,
        pos + size,
        size,
        (count - 1) as nat,
    ))
}

/// Whether `count` packets seem to begin at `start`.
pub open spec fn chain_at(data: Seq<u8>, start: int, size: int, offset: int, count: nat) -> bool {
    sync_run(data, start + offset, size, count)
}

/// The first position from `from` on at which `count` packets seem to begin.
pub open spec fn next_chain(
    data: Seq<u8>,
    from: int,
    size: int,
    offset: int,
    count: nat,
) -> Option<int>
    decreases data.len() - from,
{
    if from >= data.len() {
        None
    } else if chain_at(data, from, size, offset, count) {
        Some(from)
    } else {
        next_chain(data, from + 1, size, offset, count)
    }
}

/// [`next_chain`] finds the first position of a chain, and finds none only
/// where there is none.
pub proof fn law_next_chain_is_first(
    data: Seq<u8>,
    from: int,
    size: int,
    offset: int,
    count: nat,
)
    ensures
        match next_chain(data, from, size, offset, count) {
            Some(found) => {
                &&& from <= found < data.len()
                &&& chain_at(data, found, size, offset, count)
                &&& forall|p: int|
                    from <= p < found ==> !#[trigger] chain_at(data, p, size, offset, count)
            },
            None => forall|p: int|
                from <= p < data.len() ==> !#[trigger] chain_at(data, p, size, offset, count),
        },
    decreases data.len() - from,
{
    if from >= data.len() {
    } else if chain_at(data, from, size, offset, count) {
    } else {
        law_next_chain_is_first(data, from + 1, size, offset, count);
    }
}

/// The head of the data, by which the layout is judged.
pub open spec fn probe_of(data: Seq<u8>) -> Seq<u8> {
    if data.len() > PROBE_SIZE {
        data.take(PROBE_SIZE as int)
    } else {
        data
    }
}

/// The packet size, the offset of the sync byte and the position of the first
/// packet: three packets of 188 bytes anywhere in the probe, else three of 192.
pub open spec fn layout_of(data: Seq<u8>) -> Option<(int, int, int)> {
    match next_chain(probe_of(data), 0, 188, 0, 3) {
        Some(start) => Some((188, 0, start)),
        None => match next_chain(probe_of(data), 0, 192, 4, 3) {
            Some(start) => Some((192, 4, start)),
            None => None,
        },
    }
}

/// The packets from `pos` on. Where a packet is due and its sync byte is not
/// there, reading goes on at the next place where two packets seem to begin.
pub open spec fn packets_from(data: Seq<u8>, pos: int, size: int, offset: int) -> Seq<Seq<u8>>
    decreases data.len() - pos,
{
    if pos < 0 || size < TS_PACKET_SIZE || pos + size > data.len() {
        Seq::empty()
    } else if data[pos + offset] == SYNC_BYTE {
        seq![unit_at(data, pos, size)] + packets_from(data, pos + size, size, offset)
    } else {
        match next_chain(data, pos + 1, size, offset, 2) {
            Some(found) => if pos < found <= data.len() {
                packets_from(data, found, size, offset)
            } else {
                Seq::empty()
            },
            None => Seq::empty(),
        }
    }
}

/// Where the first of the packets from `pos` on begins; where there is none,
/// the place at which reading gives up.
pub open spec fn next_packet_at(data: Seq<u8>, pos: int, size: int, offset: int) -> int
    decreases data.len() - pos,
{
    if pos < 0 || size < TS_PACKET_SIZE || pos + size > data.len() || data[pos + offset]
        == SYNC_BYTE {
        pos
    } else {
        match next_chain(data, pos + 1, size, offset, 2) {
            Some(found) => if pos < found <= data.len() {
                next_packet_at(data, found, size, offset)
            } else {
                pos
            },
            None => pos,
        }
    }
}

/// All packets of a file, where it has a layout.
pub open spec fn packets_of(data: Seq<u8>) -> Result<Seq<Seq<u8>>, DemuxError> {
    if data.len() == 0 {
        Err(DemuxError::EmptyInput)
    } else {
        match layout_of(data) {
            Some((size, offset, start)) => Ok(packets_from(data, start, size, offset)),
            None => Err(DemuxError::UnrecognizedLayout),
        }
    }
}

/// Whether `count` packets seem to begin at `start`.
pub fn sync_chain_at(
    data: &[u8],
    start: usize,
    packet_size: usize,
    sync_offset: usize,
    count: usize,
) -> (found: bool)
    ensures
        found == chain_at(
            data@,
            start as int,
            packet_size as int,
            sync_offset as int,
            count as nat,
        ),
{
    if count == 0 {
        return true;
    }
    if start > data.len() || sync_offset >= data.len() - start {
        return false;
    }
    let mut pos: usize = start + sync_offset;
    let mut left: usize = count;
    loop
        invariant
            left > 0,
            pos < data@.len(),
            chain_at(data@, start as int, packet_size as int, sync_offset as int, count as nat)
                == sync_run(data@, pos as int, packet_size as int, left as nat),
        decreases left,
    {
        proof {
            reveal_with_fuel(sync_run, 3);
        }
        if data[pos] != SYNC_BYTE {
            return false;
        }
        left -= 1;
        if left == 0 {
            return true;
        }
        if packet_size >= data.len() - pos {
            return false;
        }
        pos = pos + packet_size;
    }
}

/// Finds the first position from `from` on at which `count` packets seem to
/// begin.
fn find_chain(
    data: &[u8],
    from: usize,
    packet_size: usize,
    sync_offset: usize,
    count: usize,
) -> (found: Option<usize>)
    ensures
        next_chain(data@, from as int, packet_size as int, sync_offset as int, count as nat)
            == match found {
            Some(at) => Some(at as int),
            None => None,
        },
{
    let mut at: usize = from;
    while at < data.len()
        invariant
            next_chain(data@, from as int, packet_size as int, sync_offset as int, count as nat)
                == next_chain(
                data@,
                at as int,
                packet_size as int,
                sync_offset as int,
                count as nat,
            ),
        decreases data@.len() - at,
    {
        if sync_chain_at(data, at, packet_size, sync_offset, count) {
            return Some(at);
        }
        at += 1;
    }
    None
}

/// The packet size, the offset of the sync byte and the position of the first
/// packet. Fails on an empty input, and where no layout shows.
pub fn detect_layout(data: &[u8]) -> (result: Result<(usize, usize, usize), DemuxError>)
    ensures
        if data@.len() == 0 {
            result matches Err(e) && e == DemuxError::EmptyInput
        } else {
            match layout_of(data@) {
                Some((size, offset, start)) => {
                    &&& result matches Ok(found)
                    &&& found.0 == size && found.1 == offset && found.2 == start
                    &&& start < data@.len()
                },
                None => result matches Err(e) && e == DemuxError::UnrecognizedLayout,
            }
        },
{
    if data.len() == 0 {
        return Err(DemuxError::EmptyInput);
    }
    let probe = if data.len() > PROBE_SIZE {
        slice_subrange(data, 0, PROBE_SIZE)
    } else {
        data
    };
    proof {
        assert(probe@ =~= probe_of(data@));
        law_next_chain_is_first(probe@, 0, 188, 0, 3);
        law_next_chain_is_first(probe@, 0, 192, 4, 3);
    }
    if let Some(start) = find_chain(probe, 0, TS_PACKET_SIZE, 0, 3) {
        return Ok((TS_PACKET_SIZE, 0, start));
    }
    if let Some(start) = find_chain(probe, 0, M2TS_PACKET_SIZE, 4, 3) {
        return Ok((M2TS_PACKET_SIZE, 4, start));
    }
    Err(DemuxError::UnrecognizedLayout)
}

/// Reads the packets of a file one after the other.
pub struct PacketReader<'a> {
    pub data: &'a [u8],
    pub pos: usize,
    pub packet_size: usize,
    pub sync_offset: usize,
}

impl<'a> PacketReader<'a> {
    pub open spec fn wf(&self) -> bool {
        &&& self.packet_size == TS_PACKET_SIZE || self.packet_size == M2TS_PACKET_SIZE
        &&& self.sync_offset + TS_PACKET_SIZE == self.packet_size
        &&& self.pos <= self.data@.len()
    }

    /// The packets that are still to come.
    pub open spec fn ahead(&self) -> Seq<Seq<u8>> {
        packets_from(
            self.data@,
            self.pos as int,
            self.packet_size as int,
            self.sync_offset as int,
        )
    }

    /// A reader at the first packet of `data`. Fails where no layout shows.
    pub fn open(data: &'a [u8]) -> (result: Result<PacketReader<'a>, DemuxError>)
        ensures
            match packets_of(data@) {
                Ok(packets) => {
                    &&& result matches Ok(reader)
                    &&& reader.wf()
                    &&& reader.data == data
                    &&& layout_of(data@) == Some(
                        (
                            reader.packet_size as int,
                            reader.sync_offset as int,
                            reader.pos as int,
                        ),
                    )
                    &&& reader.ahead() == packets
                },
                Err(e) => result matches Err(err) && err == e,
            },
    {
        let (packet_size, sync_offset, pos) = detect_layout(data)?;
        Ok(PacketReader { data, pos, packet_size, sync_offset })
    }

    /// Where the next packet begins, or reading gives up.
    pub open spec fn next_at(&self) -> int {
        next_packet_at(
            self.data@,
            self.pos as int,
            self.packet_size as int,
            self.sync_offset as int,
        )
    }

    /// The next packet, or `None` where there is no further one. Leaves the
    /// reader behind the packet.
    pub fn next_packet(&mut self) -> (packet: Option<TsPacket<'a>>)
        requires
            old(self).wf(),
        ensures
            final(self).wf(),
            final(self).data == old(self).data,
            final(self).packet_size == old(self).packet_size,
            final(self).sync_offset == old(self).sync_offset,
            if old(self).ahead().len() == 0 {
                &&& packet is None
                &&& final(self).ahead().len() == 0
                &&& final(self).pos == old(self).next_at()
            } else {
                &&& packet matches Some(p) && p.wf() && p@ == old(self).ahead()[0]
                &&& final(self).ahead() == old(self).ahead().drop_first()
                &&& final(self).pos == old(self).next_at() + old(self).packet_size
            },
    {
        loop
            invariant
                self.wf(),
                self.data == old(self).data,
                self.packet_size == old(self).packet_size,
                self.sync_offset == old(self).sync_offset,
                self.ahead() == old(self).ahead(),
                self.next_at() == old(self).next_at(),
            decreases self.data@.len() - self.pos,
        {
            if self.packet_size > self.data.len() - self.pos {
                return None;
            }
            if self.data[self.pos + self.sync_offset] == SYNC_BYTE {
                let end: usize = self.pos + self.packet_size;
                let bytes = slice_subrange(self.data, end - TS_PACKET_SIZE, end);
                let ghost before = self.ahead();
                self.pos = end;
                proof {
                    assert(before.drop_first() =~= self.ahead());
                }
                return Some(TsPacket::parse(bytes));
            }
            let from: usize = self.pos + 1;
            if !self.resync_from(from) {
                return None;
            }
        }
    }

    /// Moves to the first position from `from` on where two packets seem to
    /// begin. Stays, and answers `false`, where there is none.
    pub fn resync_from(&mut self, from: usize) -> (found: bool)
        requires
            old(self).wf(),
        ensures
            final(self).wf(),
            final(self).data == old(self).data,
            final(self).packet_size == old(self).packet_size,
            final(self).sync_offset == old(self).sync_offset,
            match next_chain(
                old(self).data@,
                from as int,
                old(self).packet_size as int,
                old(self).sync_offset as int,
                2,
            ) {
                Some(at) => found && final(self).pos == at && from <= at < old(self).data@.len(),
                None => !found && final(self).pos == old(self).pos,
            },
    {
        proof {
            law_next_chain_is_first(
                self.data@,
                from as int,
                self.packet_size as int,
                self.sync_offset as int,
                2,
            );
        }
        match find_chain(self.data, from, self.packet_size, self.sync_offset, 2) {
            Some(at) => {
                self.pos = at;
                true
            },
            None => false,
        }
    }
}

} // verus!
