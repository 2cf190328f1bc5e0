//! Writing bytes as the payload of one packet identifier, behind the two
//! tables that announce it.

use vstd::prelude::*;
use vstd::slice::slice_subrange;

use crate::bytes::append;
use crate::bytes::append_be32;
use crate::bytes::be32_bytes;
use crate::bytes::pieces;
use crate::crc::crc32;
use crate::crc::mpeg_crc32;
use crate::packet::SYNC_BYTE;
use crate::packet::TS_PACKET_SIZE;

verus! {

/// The identifier of the packets that hold the program map table.
pub const PMT_PID: u16 = 0x1000;

/// The identifier of the packets that hold the data.
pub const DATA_PID: u16 = 0x0100;

/// Payload bytes in a packet without an adaptation field.
pub const MAX_PAYLOAD: usize = 184;

/// Why bytes cannot be put into a packet.
#[derive(Clone, Copy, Debug, PartialEq, Eq, Structural)]
pub enum WriteError {
    /// A section and its pointer byte do not fit into one packet.
    SectionTooLarge,
    /// A payload is empty or longer than a packet can carry.
    PayloadLength(usize),
}

/// `count` stuffing bytes.
pub open spec fn stuffing(count: int) -> Seq<u8> {
    Seq::new(count as nat, |i: int| 0xFFu8)
}

/// The packet that carries one whole section.
pub open spec fn section_packet(pid: u16, starts: bool, section: Seq<u8>) -> Seq<u8> {
    seq![
        SYNC_BYTE,
        ((pid / 256) % 32 + if starts { 64int } else { 0int }) as u8,
        (pid % 256) as u8,
        0x10u8,
        0x00u8,
    ] + section + stuffing(TS_PACKET_SIZE - 5 - section.len())
}

/// The fill between the header of a data packet and its payload: nothing for
/// a full payload, else an adaptation field of the right length.
pub open spec fn data_fill(payload_len: int) -> Seq<u8> {
    if payload_len == 184 {
        Seq::empty()
    } else if payload_len == 183 {
        seq![0u8]
    } else {
        seq![(183 - payload_len) as u8, 0u8] + stuffing(182 - payload_len)
    }
}

/// The packet that carries one payload, of 1 to 184 bytes, in the data stream.
pub open spec fn data_packet(counter: u8, payload: Seq<u8>) -> Seq<u8> {
    seq![
        SYNC_BYTE,
        (DATA_PID / 256) as u8,
        (DATA_PID % 256) as u8,
        (if payload.len() == 184 { 0x10int } else { 0x30int } + counter) as u8,
    ] + data_fill(payload.len() as int) + payload
}

/// The packets that carry a list of payloads, with the counter running on from
/// `counter`.
pub open spec fn data_packets(counter: u8, payloads: Seq<Seq<u8>>) -> Seq<u8>
    decreases payloads.len(),
{
    if payloads.len() == 0 {
        Seq::empty()
    } else {
        data_packet(counter, payloads[0]) + data_packets(
            ((counter + 1) % 16) as u8,
            payloads.drop_first(),
        )
    }
}

/// `body` closed by its CRC.
pub open spec fn sealed(body: Seq<u8>) -> Seq<u8> {
    body + be32_bytes(crc32(body))
}

/// The program association table: program 1 is described under [`PMT_PID`].
pub open spec fn pat_bytes() -> Seq<u8> {
    sealed(
        seq![
            0x00u8, 0xB0u8, 0x0Du8, 0x00u8, 0x01u8, 0xC1u8, 0x00u8, 0x00u8,
            0x00u8, 0x01u8, 0xF0u8, 0x00u8,
        ],
    )
}

/// The program map table: program 1 has one private stream under [`DATA_PID`].
pub open spec fn pmt_bytes() -> Seq<u8> {
    sealed(
        seq![
            0x02u8, 0xB0u8, 0x12u8, 0x00u8, 0x01u8, 0xC1u8, 0x00u8, 0x00u8,
            0xE1u8, 0x00u8, 0xF0u8, 0x00u8, 0x06u8, 0xE1u8, 0x00u8, 0xF0u8,
            0x00u8,
        ],
    )
}

/// The two packets at the head of every stream.
pub open spec fn table_packets() -> Seq<u8> {
    section_packet(0, true, pat_bytes()) + section_packet(PMT_PID, true, pmt_bytes())
}

/// Appends stuffing bytes.
fn append_stuffing(out: &mut Vec<u8>, count: usize)
    ensures
        final(out)@ == old(out)@ + stuffing(count as int),
{
    let mut i: usize = 0;
    assert(out@ =~= old(out)@ + stuffing(0));
    while i < count
        invariant
            i <= count,
            out@ == old(out)@ + stuffing(i as int),
        decreases count - i,
    {
        out.push(0xFF);
        i += 1;
        assert(out@ =~= old(out)@ + stuffing(i as int));
    }
}

/// Appends the packet of one section. Fails, and writes nothing, where the
/// section is longer than 183 bytes.
pub fn write_section_packet(
    out: &mut Vec<u8>,
    pid: u16,
    payload_unit_start: bool,
    section: &[u8],
) -> (result: Result<(), WriteError>)
    ensures
        section@.len() > 183 ==> result == Err::<(), WriteError>(WriteError::SectionTooLarge)
            && final(out)@ == old(out)@,
        section@.len() <= 183 ==> result is Ok && final(out)@ == old(out)@ + section_packet(
            pid,
            payload_unit_start,
            section@,
        ),
{
    if section.len() > MAX_PAYLOAD - 1 {
        return Err(WriteError::SectionTooLarge);
    }
    let flag: u8 = if payload_unit_start { 64 } else { 0 };
    out.push(SYNC_BYTE);
    out.push(((pid / 256) % 32) as u8 + flag);
    out.push((pid % 256) as u8);
    out.push(0x10);
    out.push(0x00);
    append(out, section);
    append_stuffing(out, TS_PACKET_SIZE - 5 - section.len());
    assert(out@ =~= old(out)@ + section_packet(pid, payload_unit_start, section@));
    Ok(())
}

/// The program association table of a packed file.
pub fn pat_section() -> (section: Vec<u8>)
    ensures
        section@ == pat_bytes(),
        section@.len() == 16,
{
    let mut section: Vec<u8> = vec![
        0x00, 0xB0, 0x0D, 0x00, 0x01, 0xC1, 0x00, 0x00,
        0x00, 0x01, 0xE0 + ((PMT_PID / 256) % 32) as u8, (PMT_PID % 256) as u8,
    ];
    let ghost body = section@;
    let crc = mpeg_crc32(&section);
    append_be32(&mut section, crc);
    assert(body =~= seq![
        0x00u8, 0xB0u8, 0x0Du8, 0x00u8, 0x01u8, 0xC1u8, 0x00u8, 0x00u8,
        0x00u8, 0x01u8, 0xF0u8, 0x00u8,
    ]);
    section
}

/// The program map table of a packed file.
pub fn pmt_section() -> (section: Vec<u8>)
    ensures
        section@ == pmt_bytes(),
        section@.len() == 21,
{
    let mut section: Vec<u8> = vec![
        0x02, 0xB0, 0x12, 0x00, 0x01, 0xC1, 0x00, 0x00,
        0xE0 + ((DATA_PID / 256) % 32) as u8, (DATA_PID % 256) as u8, 0xF0, 0x00,
        0x06, 0xE0 + ((DATA_PID / 256) % 32) as u8, (DATA_PID % 256) as u8, 0xF0, 0x00,
    ];
    let ghost body = section@;
    let crc = mpeg_crc32(&section);
    append_be32(&mut section, crc);
    assert(body =~= seq![
        0x02u8, 0xB0u8, 0x12u8, 0x00u8, 0x01u8, 0xC1u8, 0x00u8, 0x00u8,
        0xE1u8, 0x00u8, 0xF0u8, 0x00u8, 0x06u8, 0xE1u8, 0x00u8, 0xF0u8,
        0x00u8,
    ]);
    section
}

/// Writes a data stream into memory.
pub struct TsDataWriter {
    pub out: Vec<u8>,
    pub continuity: u8,
}

impl TsDataWriter {
    /// The counter has four bits.
    pub open spec fn wf(&self) -> bool {
        self.continuity < 16
    }

    /// A stream that holds its two tables and no data.
    pub fn new() -> (writer: TsDataWriter)
        ensures
            writer.wf(),
            writer.out@ == table_packets(),
            writer.continuity == 0,
    {
        let mut out: Vec<u8> = Vec::new();
        let pat = pat_section();
        let pmt = pmt_section();
        let _ = write_section_packet(&mut out, 0, true, &pat);
        let _ = write_section_packet(&mut out, PMT_PID, true, &pmt);
        assert(out@ =~= table_packets());
        TsDataWriter { out, continuity: 0 }
    }

    /// Appends `data`, cut into payloads of 184 bytes. The last packet of a
    /// call is stuffed rather than shared with the next call.
    #[verifier::rlimit(30)]
    pub fn write_data(&mut self, data: &[u8])
        requires
            old(self).wf(),
        ensures
            final(self).wf(),
            final(self).out@ == old(self).out@ + data_packets(
                old(self).continuity,
                pieces(data@, 184),
            ),
            final(self).continuity == (old(self).continuity + pieces(data@, 184).len()) % 16,
    {
        let mut rest: &[u8] = data;
        let ghost mut sent: int = 0;
        assert(old(self).out@ + data_packets(old(self).continuity, pieces(data@, 184)) =~= self.out@
            + data_packets(self.continuity, pieces(rest@, 184)));
        while rest.len() > 0
            invariant
                self.wf(),
                old(self).continuity < 16,
                old(self).out@ + data_packets(old(self).continuity, pieces(data@, 184)) == self.out@
                    + data_packets(self.continuity, pieces(rest@, 184)),
                0 <= sent,
                sent + pieces(rest@, 184).len() == pieces(data@, 184).len(),
                self.continuity == (old(self).continuity + sent) % 16,
            decreases rest@.len(),
        {
            let take: usize = if rest.len() < MAX_PAYLOAD { rest.len() } else { MAX_PAYLOAD };
            let ghost before = rest@;
            let ghost out_before = self.out@;
            let ghost counter = self.continuity;
            let head = slice_subrange(rest, 0, take);
            let _ = self.write_data_packet(head);
            rest = slice_subrange(rest, take, rest.len());
            proof {
                let all = pieces(before, 184);
                assert(rest@ =~= before.skip(take as int));
                assert(head@ =~= before.take(take as int));
                assert(all[0] == head@) by {
                    if before.len() <= 184 {
                        assert(head@ =~= before);
                    }
                }
                assert(all.drop_first() =~= pieces(rest@, 184)) by {
                    if before.len() <= 184 {
                        assert(rest@.len() == 0);
                    }
                }
                assert(out_before + data_packets(counter, all) =~= self.out@ + data_packets(
                    self.continuity,
                    pieces(rest@, 184),
                ));
                sent = sent + 1;
            }
        }
        assert(self.out@ + data_packets(self.continuity, pieces(rest@, 184)) =~= self.out@);
    }

    /// Appends one data packet. Fails, and writes nothing, where the payload
    /// is empty or longer than 184 bytes.
    pub fn write_data_packet(&mut self, payload: &[u8]) -> (result: Result<(), WriteError>)
        requires
            old(self).wf(),
        ensures
            final(self).wf(),
            1 <= payload@.len() <= 184 ==> {
                &&& result is Ok
                &&& final(self).out@ == old(self).out@ + data_packet(
                    old(self).continuity,
                    payload@,
                )
                &&& final(self).continuity == (old(self).continuity + 1) % 16
            },
            !(1 <= payload@.len() <= 184) ==> {
                &&& result == Err::<(), WriteError>(
                    WriteError::PayloadLength(payload@.len() as usize),
                )
                &&& *final(self) == *old(self)
            },
    {
        if payload.len() == 0 || payload.len() > MAX_PAYLOAD {
            return Err(WriteError::PayloadLength(payload.len()));
        }
        self.out.push(SYNC_BYTE);
        self.out.push((DATA_PID / 256) as u8);
        self.out.push((DATA_PID % 256) as u8);
        if payload.len() == MAX_PAYLOAD {
            self.out.push(0x10 + self.continuity);
        } else {
            self.out.push(0x30 + self.continuity);
            let adaptation_len: usize = MAX_PAYLOAD - 1 - payload.len();
            self.out.push(adaptation_len as u8);
            if adaptation_len > 0 {
                self.out.push(0x00);
                append_stuffing(&mut self.out, adaptation_len - 1);
            }
        }
        append(&mut self.out, payload);
        assert(self.out@ =~= old(self).out@ + data_packet(old(self).continuity, payload@));
        self.continuity = (self.continuity + 1) % 16;
        Ok(())
    }

    /// The bytes written.
    pub fn finish(self) -> (out: Vec<u8>)
        ensures
            out@ == self.out@,
    {
        self.out
    }
}

} // verus!
