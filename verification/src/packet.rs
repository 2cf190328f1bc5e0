//! One transport stream packet: its header fields and its payload.

use vstd::prelude::*;
use vstd::slice::slice_subrange;

use crate::bytes::read_be13;
use crate::bytes::be13;

verus! {

/// Bytes in a transport stream packet.
pub const TS_PACKET_SIZE: usize = 188;

/// Bytes in a packet that is preceded by a four-byte timestamp.
pub const M2TS_PACKET_SIZE: usize = 192;

/// The first byte of every packet.
pub const SYNC_BYTE: u8 = 0x47;

/// Whether `p` has the length and the first byte of a packet.
pub open spec fn is_packet(p: Seq<u8>) -> bool {
    p.len() == TS_PACKET_SIZE && p[0] == SYNC_BYTE
}

/// The transport packet inside the unit of `size` bytes at `pos`: the last 188
/// bytes of it.
pub open spec fn unit_at(data: Seq<u8>, pos: int, size: int) -> Seq<u8> {
    data.subrange(pos + size - TS_PACKET_SIZE, pos + size)
}

/// The packet identifier.
pub open spec fn pid_of(p: Seq<u8>) -> u16 {
    be13(p[1], p[2]) as u16
}

/// Whether a section or PES packet begins in this packet.
pub open spec fn starts_unit(p: Seq<u8>) -> bool {
    (p[1] / 64) % 2 == 1
}

/// Whether the transport error indicator is set.
pub open spec fn has_transport_error(p: Seq<u8>) -> bool {
    p[1] / 128 == 1
}

/// The four-bit continuity counter.
pub open spec fn counter_of(p: Seq<u8>) -> u8 {
    p[3] % 16
}

/// Where the adaptation control bits put the first payload byte. `None` where
/// they announce no payload. The offset can lie past the end of the packet.
pub open spec fn payload_offset(p: Seq<u8>) -> Option<int> {
    let control = (p[3] / 16) % 4;
    if control == 1 {
        Some(4)
    } else if control == 3 {
        Some(5 + p[4])
    } else {
        None
    }
}

/// The payload of a packet. `None` where it has none, or where the adaptation
/// field claims more than the packet holds.
pub open spec fn payload_of(p: Seq<u8>) -> Option<Seq<u8>> {
    match payload_offset(p) {
        Some(start) => if start > TS_PACKET_SIZE {
            None
        } else {
            Some(p.skip(start))
        },
        None => None,
    }
}

/// Computes [`payload_offset`].
pub fn find_payload(p: &[u8]) -> (start: Option<usize>)
    requires
        p@.len() == TS_PACKET_SIZE,
    ensures
        payload_offset(p@) == match start {
            Some(s) => Some(s as int),
            None => None,
        },
{
    let control: u8 = (p[3] / 16) % 4;
    if control == 1 {
        Some(4)
    } else if control == 3 {
        Some(5 + p[4] as usize)
    } else {
        None
    }
}

/// A packet with its header fields read out.
pub struct TsPacket<'a> {
    pub pid: u16,
    pub payload_unit_start: bool,
    pub transport_error: bool,
    pub continuity_counter: u8,
    pub bytes: &'a [u8],
}

impl<'a> View for TsPacket<'a> {
    type V = Seq<u8>;

    open spec fn view(&self) -> Seq<u8> {
        self.bytes@
    }
}

impl<'a> TsPacket<'a> {
    /// The fields are those of the bytes.
    pub open spec fn wf(&self) -> bool {
        &&& self.bytes@.len() == TS_PACKET_SIZE
        &&& self.pid == pid_of(self.bytes@)
        &&& self.payload_unit_start == starts_unit(self.bytes@)
        &&& self.transport_error == has_transport_error(self.bytes@)
        &&& self.continuity_counter == counter_of(self.bytes@)
    }

    /// Reads the header fields of a packet.
    pub fn parse(bytes: &'a [u8]) -> (packet: TsPacket<'a>)
        requires
            bytes@.len() == TS_PACKET_SIZE,
        ensures
            packet.wf(),
            packet@ == bytes@,
    {
        TsPacket {
            pid: read_be13(bytes[1], bytes[2]),
            payload_unit_start: (bytes[1] / 64) % 2 == 1,
            transport_error: bytes[1] / 128 == 1,
            continuity_counter: bytes[3] % 16,
            bytes,
        }
    }

    /// The payload, or `None` where the packet carries none.
    pub fn payload(&self) -> (payload: Option<&'a [u8]>)
        requires
            self.wf(),
        ensures
            payload_of(self@) == match payload {
                Some(bytes) => Some(bytes@),
                None => None,
            },
    {
        match find_payload(self.bytes) {
            Some(start) => {
                if start > TS_PACKET_SIZE {
                    None
                } else {
                    let rest = slice_subrange(self.bytes, start, TS_PACKET_SIZE);
                    assert(rest@ =~= self.bytes@.skip(start as int));
                    Some(rest)
                }
            },
            None => None,
        }
    }
}

} // verus!
