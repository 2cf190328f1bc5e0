//! What reading a packet's header promises.

use vstd::prelude::*;

use crate::packet::counter_of;
use crate::packet::has_transport_error;
use crate::packet::payload_of;
use crate::packet::pid_of;
use crate::packet::starts_unit;

verus! {

/// What a packet says, field by field.
pub struct PacketFields {
    pub error: bool,
    pub starts: bool,
    pub priority: bool,
    pub pid: u16,
    pub scrambling: u8,
    pub counter: u8,
    /// The bytes behind the length byte of the adaptation field, if there is one.
    pub adaptation: Option<Seq<u8>>,
    /// The payload, if there is one.
    pub payload: Option<Seq<u8>>,
}

/// The fields have values that fit.
pub open spec fn fit_header(f: PacketFields) -> bool {
    f.pid < 8192 && f.scrambling < 4 && f.counter < 16
}

/// The four bytes of a header.
pub open spec fn packet_head(f: PacketFields) -> Seq<u8> {
    let error = if f.error { 128int } else { 0int };
    let starts = if f.starts { 64int } else { 0int };
    let priority = if f.priority { 32int } else { 0int };
    let adaptation = if f.adaptation is Some { 32int } else { 0int };
    let payload = if f.payload is Some { 16int } else { 0int };
    seq![
        0x47u8,
        (error + starts + priority + f.pid / 256) as u8,
        (f.pid % 256) as u8,
        (64 * f.scrambling + adaptation + payload + f.counter) as u8,
    ]
}

/// What stands behind the header: the adaptation field with its length, and
/// the payload.
pub open spec fn packet_body(f: PacketFields) -> Seq<u8> {
    let field = match f.adaptation {
        Some(a) => seq![a.len() as u8] + a,
        None => Seq::empty(),
    };
    match f.payload {
        Some(p) => field + p,
        None => field,
    }
}

/// A packet reads as it was written: flags, identifier and counter, and the
/// payload is exactly what stands behind the header and the adaptation field.
/// What follows in a packet without a payload is of no account.
pub proof fn law_packet_reads_back(f: PacketFields, rest: Seq<u8>)
    requires
        fit_header(f),
        (packet_head(f) + packet_body(f) + rest).len() == 188,
        f.payload is Some ==> rest.len() == 0,
    ensures
        ({
            let packet = packet_head(f) + packet_body(f) + rest;
            &&& pid_of(packet) == f.pid
            &&& starts_unit(packet) == f.starts
            &&& has_transport_error(packet) == f.error
            &&& counter_of(packet) == f.counter
            &&& payload_of(packet) == f.payload
        }),
{
    let packet = packet_head(f) + packet_body(f) + rest;
    let head = packet_head(f);
    assert(packet[1] == head[1]);
    assert(packet[2] == head[2]);
    assert(packet[3] == head[3]);
    let control = (packet[3] / 16) % 4;
    assert(control == (if f.adaptation is Some { 2int } else { 0int }) + (if f.payload is Some {
        1int
    } else {
        0int
    }));
    if let Some(p) = f.payload {
        match f.adaptation {
            Some(a) => {
                assert(packet[4] == packet_body(f)[0]);
                assert(a.len() <= 183);
                assert(packet.skip(5 + a.len() as int) =~= p);
            },
            None => {
                assert(packet.skip(4) =~= p);
            },
        }
    }
}

/// A packet whose adaptation field claims to reach past its end has no payload.
pub proof fn law_overlong_adaptation_has_no_payload(packet: Seq<u8>)
    requires
        packet.len() == 188,
        (packet[3] / 16) % 4 == 3,
        packet[4] > 183,
    ensures
        payload_of(packet) is None,
{
}

} // verus!
