//! From the packets of one stream to its elementary bytes.

use vstd::prelude::*;
use vstd::slice::slice_subrange;

use crate::bytes::append;
use crate::bytes::be16;
use crate::bytes::read_be16;
use crate::error::DemuxError;
use crate::packet::counter_of;
use crate::packet::has_transport_error;
use crate::packet::payload_of;
use crate::packet::pid_of;
use crate::packet::starts_unit;
use crate::packet::TsPacket;

verus! {

/// How far one stream has been read.
#[verifier::ext_equal]
pub struct PesState {
    /// The bytes of a PES header that is not yet complete.
    pub header: Seq<u8>,
    /// A PES packet has begun and its header is not yet complete.
    pub awaiting: bool,
    /// Some PES header has been complete.
    pub started: bool,
    /// The elementary bytes so far.
    pub output: Seq<u8>,
    /// The counter of the last packet that was taken.
    pub last_counter: Option<u8>,
    /// The elementary bytes that the PES packet still owes, where it says.
    pub remaining: Option<usize>,
}

/// A stream of which nothing has been read.
pub open spec fn fresh_stream() -> PesState {
    PesState {
        header: Seq::empty(),
        awaiting: false,
        started: false,
        output: Seq::empty(),
        last_counter: None,
        remaining: None,
    }
}

/// The counter that follows a counter.
pub open spec fn next_counter(counter: u8) -> u8 {
    ((counter + 1) % 16) as u8
}

/// Whether a packet is taken. One that repeats the counter of the last is
/// skipped as a duplicate.
pub open spec fn admitted(state: PesState, packet: Seq<u8>) -> Result<bool, DemuxError> {
    if has_transport_error(packet) {
        Err(DemuxError::TransportError(pid_of(packet)))
    } else {
        match state.last_counter {
            None => Ok(true),
            Some(last) => if counter_of(packet) == last {
                Ok(false)
            } else if counter_of(packet) == next_counter(last) {
                Ok(true)
            } else {
                Err(
                    DemuxError::ContinuityMismatch(
                        pid_of(packet),
                        next_counter(last),
                        counter_of(packet),
                    ),
                )
            },
        }
    }
}

/// The state after the counter of an admitted packet is noted.
pub open spec fn noted(state: PesState, packet: Seq<u8>) -> PesState {
    PesState { last_counter: Some(counter_of(packet)), ..state }
}

/// How many of `len` bytes belong to the PES packet.
pub open spec fn owed(remaining: Option<usize>, len: nat) -> int {
    match remaining {
        Some(r) => if r < len {
            r as int
        } else {
            len as int
        },
        None => len as int,
    }
}

/// Elementary bytes arrive: as many as the PES packet owes are kept.
pub open spec fn written(state: PesState, payload: Seq<u8>) -> PesState {
    let count = owed(state.remaining, payload.len());
    PesState {
        output: state.output + payload.take(count),
        remaining: match state.remaining {
            Some(r) => Some((r - count) as usize),
            None => None,
        },
        ..state
    }
}

/// Whether the fixed part of a PES header is there.
pub open spec fn has_fixed_header(header: Seq<u8>) -> bool {
    header.len() >= 9
}

/// Whether a PES packet begins with its start code.
pub open spec fn has_start_code(header: Seq<u8>) -> bool {
    header[0] == 0 && header[1] == 0 && header[2] == 1
}

/// The length of a whole PES header.
pub open spec fn header_len(header: Seq<u8>) -> int {
    9 + header[8]
}

/// The length that a PES packet declares for what follows its length field, or
/// zero where it declares none.
pub open spec fn pes_len(header: Seq<u8>) -> int {
    be16(header[4], header[5])
}

/// Bytes arrive while a header is awaited.
pub open spec fn fed(state: PesState, payload: Seq<u8>) -> (PesState, Result<(), DemuxError>) {
    let header = state.header + payload;
    let waiting = PesState { header, ..state };
    if !has_fixed_header(header) {
        (waiting, Ok(()))
    } else if !has_start_code(header) {
        (waiting, Err(DemuxError::PesStartCode))
    } else if header.len() < header_len(header) {
        (waiting, Ok(()))
    } else if 0 < pes_len(header) < header_len(header) - 6 {
        (waiting, Err(DemuxError::PesLength))
    } else {
        let open = PesState {
            header: Seq::empty(),
            awaiting: false,
            started: true,
            remaining: if pes_len(header) > 0 {
                Some((pes_len(header) - (header_len(header) - 6)) as usize)
            } else {
                state.remaining
            },
            ..state
        };
        (written(open, header.skip(header_len(header))), Ok(()))
    }
}

/// A payload arrives that begins a PES packet. It is refused where the PES
/// packet before it is incomplete, be it in its header or in what it declared.
pub open spec fn begun(state: PesState, payload: Seq<u8>) -> (PesState, Result<(), DemuxError>) {
    if state.awaiting {
        (state, Err(DemuxError::UnfinishedPesHeader))
    } else if state.remaining is Some && state.remaining.unwrap() > 0 {
        (state, Err(DemuxError::UnfinishedPes))
    } else {
        fed(
            PesState { header: Seq::empty(), awaiting: true, remaining: None, ..state },
            payload,
        )
    }
}

/// A payload arrives that goes on with a PES packet. Before the first PES
/// packet it is dropped.
pub open spec fn continued(state: PesState, payload: Seq<u8>) -> (
    PesState,
    Result<(), DemuxError>,
) {
    if state.awaiting {
        fed(state, payload)
    } else if state.started {
        (written(state, payload), Ok(()))
    } else {
        (state, Ok(()))
    }
}

/// One more packet of the stream.
pub open spec fn received(state: PesState, packet: Seq<u8>) -> (PesState, Result<(), DemuxError>) {
    match payload_of(packet) {
        None => (state, Ok(())),
        Some(payload) => match admitted(state, packet) {
            Err(e) => (state, Err(e)),
            Ok(false) => (state, Ok(())),
            Ok(true) => if starts_unit(packet) {
                begun(noted(state, packet), payload)
            } else {
                continued(noted(state, packet), payload)
            },
        },
    }
}

/// Collects the elementary bytes of one stream.
pub struct StreamWriter {
    pub header_buffer: Vec<u8>,
    pub awaiting_pes_header: bool,
    pub started: bool,
    pub output: Vec<u8>,
    pub last_continuity_counter: Option<u8>,
    pub pes_remaining: Option<usize>,
}

impl View for StreamWriter {
    type V = PesState;

    open spec fn view(&self) -> PesState {
        PesState {
            header: self.header_buffer@,
            awaiting: self.awaiting_pes_header,
            started: self.started,
            output: self.output@,
            last_counter: self.last_continuity_counter,
            remaining: self.pes_remaining,
        }
    }
}

impl StreamWriter {
    /// Counters have four bits.
    pub open spec fn wf(&self) -> bool {
        self.last_continuity_counter matches Some(last) ==> last < 16
    }

    /// A writer for a stream of which nothing has been read.
    pub fn new() -> (writer: StreamWriter)
        ensures
            writer.wf(),
            writer@ == fresh_stream(),
    {
        StreamWriter {
            header_buffer: Vec::new(),
            awaiting_pes_header: false,
            started: false,
            output: Vec::new(),
            last_continuity_counter: None,
            pes_remaining: None,
        }
    }

    /// Whether a packet is taken, and notes its counter if so. A duplicate is
    /// not. Fails where the packet is damaged or one before it is missing.
    pub fn accept_packet(&mut self, packet: &TsPacket<'_>) -> (result: Result<bool, DemuxError>)
        requires
            old(self).wf(),
            packet.wf(),
        ensures
            final(self).wf(),
            result == admitted(old(self)@, packet@),
            final(self)@ == (if result == Ok::<bool, DemuxError>(true) {
                noted(old(self)@, packet@)
            } else {
                old(self)@
            }),
    {
        if packet.transport_error {
            return Err(DemuxError::TransportError(packet.pid));
        }
        let counter: u8 = packet.continuity_counter;
        if let Some(last) = self.last_continuity_counter {
            let expected: u8 = (last + 1) % 16;
            if counter == last {
                return Ok(false);
            }
            if counter != expected {
                return Err(DemuxError::ContinuityMismatch(packet.pid, expected, counter));
            }
        }
        self.last_continuity_counter = Some(counter);
        Ok(true)
    }

    /// Begins a PES packet. Fails, and changes nothing, where the one before it
    /// is incomplete, in its header or in its declared length. Fails also where
    /// its own header is not valid.
    pub fn start_pes(&mut self, payload: &[u8]) -> (result: Result<(), DemuxError>)
        requires
            old(self).wf(),
        ensures
            final(self).wf(),
            (final(self)@, result) == begun(old(self)@, payload@),
    {
        if self.awaiting_pes_header {
            return Err(DemuxError::UnfinishedPesHeader);
        }
        if let Some(left) = self.pes_remaining {
            if left > 0 {
                return Err(DemuxError::UnfinishedPes);
            }
        }
        self.header_buffer.clear();
        self.awaiting_pes_header = true;
        self.pes_remaining = None;
        self.feed_pes_header(payload)
    }

    /// Goes on with a PES packet. Fails where its header is not valid.
    pub fn continue_pes(&mut self, payload: &[u8]) -> (result: Result<(), DemuxError>)
        requires
            old(self).wf(),
        ensures
            final(self).wf(),
            (final(self)@, result) == continued(old(self)@, payload@),
    {
        if self.awaiting_pes_header {
            self.feed_pes_header(payload)
        } else if self.started {
            self.write_elementary_payload(payload);
            Ok(())
        } else {
            Ok(())
        }
    }

    /// Adds bytes to a header, and writes what follows it once it is complete.
    fn feed_pes_header(&mut self, payload: &[u8]) -> (result: Result<(), DemuxError>)
        requires
            old(self).wf(),
        ensures
            final(self).wf(),
            (final(self)@, result) == fed(old(self)@, payload@),
    {
        append(&mut self.header_buffer, payload);
        let ghost header = self.header_buffer@;
        let have: usize = self.header_buffer.len();
        if have < 9 {
            return Ok(());
        }
        if self.header_buffer[0] != 0 || self.header_buffer[1] != 0 || self.header_buffer[2] != 1 {
            return Err(DemuxError::PesStartCode);
        }
        let declared: usize = read_be16(self.header_buffer[4], self.header_buffer[5]) as usize;
        let whole: usize = 9 + self.header_buffer[8] as usize;
        if have < whole {
            return Ok(());
        }
        if declared > 0 {
            let after_length: usize = whole - 6;
            if declared < after_length {
                return Err(DemuxError::PesLength);
            }
            self.pes_remaining = Some(declared - after_length);
        }
        let rest = self.header_buffer.split_off(whole);
        assert(rest@ =~= header.skip(header_len(header)));
        self.header_buffer.clear();
        self.awaiting_pes_header = false;
        self.started = true;
        self.write_elementary_payload(&rest);
        Ok(())
    }

    /// Writes as many of the bytes as the PES packet owes.
    fn write_elementary_payload(&mut self, payload: &[u8])
        requires
            old(self).wf(),
        ensures
            final(self).wf(),
            final(self)@ == written(old(self)@, payload@),
    {
        let writable: usize = match self.pes_remaining {
            Some(left) => if left < payload.len() {
                left
            } else {
                payload.len()
            },
            None => payload.len(),
        };
        let kept = slice_subrange(payload, 0, writable);
        assert(kept@ =~= payload@.take(writable as int));
        append(&mut self.output, kept);
        if let Some(left) = self.pes_remaining {
            self.pes_remaining = Some(left - writable);
        }
    }

    /// Takes one more packet of the stream.
    pub fn receive(&mut self, packet: &TsPacket<'_>) -> (result: Result<(), DemuxError>)
        requires
            old(self).wf(),
            packet.wf(),
        ensures
            final(self).wf(),
            (final(self)@, result) == received(old(self)@, packet@),
    {
        let payload = match packet.payload() {
            None => {
                return Ok(());
            },
            Some(payload) => payload,
        };
        if !self.accept_packet(packet)? {
            return Ok(());
        }
        if packet.payload_unit_start {
            self.start_pes(payload)
        } else {
            self.continue_pes(payload)
        }
    }
}

/// A PES header that is not complete when the next PES packet begins is
/// refused, and none of its bytes are dropped in silence.
pub proof fn law_unfinished_header_is_refused(state: PesState, payload: Seq<u8>)
    requires
        state.awaiting,
    ensures
        begun(state, payload) == (state, Err::<(), DemuxError>(DemuxError::UnfinishedPesHeader)),
{
}

/// Where a PES packet is cut between two payloads makes no difference: taking
/// `a` and going on with `b` is taking `a + b`.
pub proof fn law_pes_cuts_do_not_matter(state: PesState, a: Seq<u8>, b: Seq<u8>)
    requires
        begun(state, a).1 is Ok,
    ensures
        continued(begun(state, a).0, b) == begun(state, a + b),
{
    let (mid, _) = begun(state, a);
    let empty = PesState { header: Seq::empty(), awaiting: true, remaining: None, ..state };
    assert(Seq::<u8>::empty() + a =~= a);
    assert(Seq::<u8>::empty() + (a + b) =~= a + b);
    if mid.awaiting {
        assert(mid =~= PesState { header: a, ..empty });
        assert(continued(mid, b) == fed(mid, b));
    } else {
        let h = header_len(a);
        let rest = a.skip(h);
        assert((a + b).skip(h) =~= rest + b);
        assert(header_len(a + b) == h);
        assert(pes_len(a + b) == pes_len(a));
        let open = PesState {
            header: Seq::empty(),
            awaiting: false,
            started: true,
            remaining: if pes_len(a) > 0 {
                Some((pes_len(a) - (h - 6)) as usize)
            } else {
                None
            },
            ..state
        };
        assert(mid == written(open, rest));
        lemma_written_concat(open, rest, b);
        assert(begun(state, a + b).0 == written(open, rest + b));
    }
}

/// Writing two runs of bytes is writing them as one.
proof fn lemma_written_concat(state: PesState, a: Seq<u8>, b: Seq<u8>)
    ensures
        written(written(state, a), b) == written(state, a + b),
{
    let one = written(state, a + b);
    let two = written(written(state, a), b);
    assert(one.output =~= two.output);
}

} // verus!
