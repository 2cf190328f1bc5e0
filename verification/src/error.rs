//! Why a transport stream cannot be taken apart.

use vstd::prelude::*;

verus! {

/// Why elementary streams cannot be listed or extracted.
#[derive(Clone, Copy, Debug, PartialEq, Eq, Structural)]
pub enum DemuxError {
    /// The input holds no bytes.
    EmptyInput,
    /// The input is neither 188-byte TS nor 192-byte M2TS.
    UnrecognizedLayout,
    /// The name of the input is not text.
    InputNameNotUtf8,
    /// A table section claims a length that no section has.
    SectionLength(usize),
    /// A program association table is cut short.
    PatLength,
    /// A program map table is cut short.
    PmtLength,
    /// Stream descriptors reach past their program map table.
    PmtDescriptorLength,
    /// No program has a stream of a known kind.
    NoSupportedStreams,
    /// Two streams, given by their identifiers, have one output name.
    NameCollision(u16, u16),
    /// A packet of this stream is marked as damaged.
    TransportError(u16),
    /// A packet of this stream has the second counter where the first is due.
    ContinuityMismatch(u16, u8, u8),
    /// A PES packet begins before the one before it has its declared length.
    UnfinishedPes,
    /// A PES packet begins before the header of the one before it is complete.
    UnfinishedPesHeader,
    /// A PES packet does not begin with its start code.
    PesStartCode,
    /// A PES packet is declared shorter than its own header.
    PesLength,
    /// This stream ends inside a PES header.
    IncompletePesHeader(u16),
    /// This stream has no payload.
    EmptyStream(u16),
}

} // verus!
