//! Byte sequences: big-endian fields, concatenation and pieces.

use vstd::prelude::*;

verus! {

/// The 16-bit big-endian number in two bytes.
pub open spec fn be16(hi: u8, lo: u8) -> int {
    hi * 256 + lo
}

/// The low 13 bits of a big-endian pair: a packet identifier.
pub open spec fn be13(hi: u8, lo: u8) -> int {
    (hi % 32) * 256 + lo
}

/// The low 12 bits of a big-endian pair: a section or descriptor length.
pub open spec fn be12(hi: u8, lo: u8) -> int {
    (hi % 16) * 256 + lo
}

/// The two bytes of a 16-bit number, most significant first.
pub open spec fn be16_bytes(value: u16) -> Seq<u8> {
    seq![(value / 256) as u8, (value % 256) as u8]
}

/// The four bytes of a 32-bit number, most significant first.
pub open spec fn be32_bytes(value: u32) -> Seq<u8> {
    seq![(value >> 24) as u8, (value >> 16) as u8, (value >> 8) as u8, value as u8]
}

/// The eight bytes of a 64-bit number, most significant first.
pub open spec fn be64_bytes(value: u64) -> Seq<u8> {
    seq![
        (value >> 56) as u8,
        (value >> 48) as u8,
        (value >> 40) as u8,
        (value >> 32) as u8,
        (value >> 24) as u8,
        (value >> 16) as u8,
        (value >> 8) as u8,
        value as u8,
    ]
}

/// The 64-bit number whose big-endian bytes are the first eight of `b`.
pub open spec fn be64(b: Seq<u8>) -> u64 {
    (b[0] as u64) << 56 | (b[1] as u64) << 48 | (b[2] as u64) << 40 | (b[3] as u64) << 32 | (
    b[4] as u64) << 24 | (b[5] as u64) << 16 | (b[6] as u64) << 8 | b[7] as u64
}

/// Reads a 16-bit big-endian field.
pub fn read_be16(hi: u8, lo: u8) -> (value: u16)
    ensures
        value == be16(hi, lo),
{
    (hi as u16) * 256 + lo as u16
}

/// Reads a 13-bit field, ignoring the top three bits.
pub fn read_be13(hi: u8, lo: u8) -> (value: u16)
    ensures
        value == be13(hi, lo),
{
    ((hi % 32) as u16) * 256 + lo as u16
}

/// Reads a 12-bit field, ignoring the top four bits.
pub fn read_be12(hi: u8, lo: u8) -> (value: usize)
    ensures
        value == be12(hi, lo),
{
    ((hi % 16) as usize) * 256 + lo as usize
}

/// Reads a 64-bit big-endian field.
pub fn read_be64(b: &[u8]) -> (value: u64)
    requires
        b@.len() >= 8,
    ensures
        value == be64(b@),
{
    (b[0] as u64) << 56 | (b[1] as u64) << 48 | (b[2] as u64) << 40 | (b[3] as u64) << 32 | (
    b[4] as u64) << 24 | (b[5] as u64) << 16 | (b[6] as u64) << 8 | b[7] as u64
}

/// Appends a 32-bit number, most significant byte first.
pub fn append_be32(out: &mut Vec<u8>, value: u32)
    ensures
        final(out)@ == old(out)@ + be32_bytes(value),
{
    out.push((value >> 24) as u8);
    out.push((value >> 16) as u8);
    out.push((value >> 8) as u8);
    out.push(value as u8);
    assert(out@ =~= old(out)@ + be32_bytes(value));
}

/// Appends a 64-bit number, most significant byte first.
pub fn append_be64(out: &mut Vec<u8>, value: u64)
    ensures
        final(out)@ == old(out)@ + be64_bytes(value),
{
    out.push((value >> 56) as u8);
    out.push((value >> 48) as u8);
    out.push((value >> 40) as u8);
    out.push((value >> 32) as u8);
    out.push((value >> 24) as u8);
    out.push((value >> 16) as u8);
    out.push((value >> 8) as u8);
    out.push(value as u8);
    assert(out@ =~= old(out)@ + be64_bytes(value));
}

/// Appends a slice.
pub fn append(out: &mut Vec<u8>, data: &[u8])
    ensures
        final(out)@ == old(out)@ + data@,
{
    out.extend_from_slice(data);
    assert(out@ =~= old(out)@ + data@);
}

/// Compares two slices byte by byte.
pub fn same_bytes(a: &[u8], b: &[u8]) -> (same: bool)
    ensures
        same == (a@ == b@),
{
    if a.len() != b.len() {
        return false;
    }
    let mut i: usize = 0;
    while i < a.len()
        invariant
            i <= a@.len(),
            a@.len() == b@.len(),
            a@.take(i as int) == b@.take(i as int),
        decreases a@.len() - i,
    {
        if a[i] != b[i] {
            return false;
        }
        i += 1;
        assert(a@.take(i as int) =~= a@.take(i - 1).push(a@[i - 1]));
        assert(b@.take(i as int) =~= b@.take(i - 1).push(b@[i - 1]));
    }
    assert(a@.take(i as int) =~= a@);
    assert(b@.take(i as int) =~= b@);
    true
}

/// Whether a byte occurs in a slice.
pub fn contains_byte(data: &[u8], byte: u8) -> (found: bool)
    ensures
        found == data@.contains(byte),
{
    let mut i: usize = 0;
    while i < data.len()
        invariant
            i <= data@.len(),
            forall|j: int| 0 <= j < i ==> data@[j] != byte,
        decreases data@.len() - i,
    {
        if data[i] == byte {
            assert(data@[i as int] == byte);
            return true;
        }
        i += 1;
    }
    false
}

/// The concatenation of a list of byte sequences.
pub open spec fn joined(parts: Seq<Seq<u8>>) -> Seq<u8>
    decreases parts.len(),
{
    if parts.len() == 0 {
        Seq::empty()
    } else {
        parts[0] + joined(parts.drop_first())
    }
}

/// `data` cut from the front into pieces of `size` bytes, the last one
/// possibly shorter.
pub open spec fn pieces(data: Seq<u8>, size: nat) -> Seq<Seq<u8>>
    decreases data.len(),
{
    if data.len() == 0 || size == 0 {
        Seq::empty()
    } else if data.len() <= size {
        seq![data]
    } else {
        seq![data.take(size as int)] + pieces(data.skip(size as int), size)
    }
}

/// The contents of a list of byte vectors.
pub open spec fn views(list: Seq<Vec<u8>>) -> Seq<Seq<u8>> {
    list.map_values(|v: Vec<u8>| v@)
}

/// Joining two lists of parts joins what they hold.
pub proof fn lemma_joined_concat(a: Seq<Seq<u8>>, b: Seq<Seq<u8>>)
    ensures
        joined(a + b) == joined(a) + joined(b),
    decreases a.len(),
{
    if a.len() == 0 {
        assert(a + b =~= b);
    } else {
        assert((a + b).drop_first() =~= a.drop_first() + b);
        lemma_joined_concat(a.drop_first(), b);
        assert(joined(a + b) =~= joined(a) + joined(b));
    }
}

/// Cutting into pieces loses nothing, and every piece holds between one byte
/// and `size` bytes.
pub proof fn lemma_pieces(data: Seq<u8>, size: nat)
    requires
        size > 0,
    ensures
        joined(pieces(data, size)) == data,
        forall|i: int|
            0 <= i < pieces(data, size).len() ==> 1 <= (#[trigger] pieces(data, size)[i]).len()
                <= size,
    decreases data.len(),
{
    if data.len() == 0 {
    } else if data.len() <= size {
        reveal_with_fuel(joined, 2);
        assert(joined(pieces(data, size)) =~= data);
    } else {
        let rest = data.skip(size as int);
        lemma_pieces(rest, size);
        assert(pieces(data, size).drop_first() =~= pieces(rest, size));
        assert(joined(pieces(data, size)) =~= data);
    }
}

/// Reading a 64-bit number back gives the number written.
pub proof fn lemma_be64_round_trip(value: u64)
    ensures
        be64(be64_bytes(value)) == value,
{
    assert(((value >> 56) as u8 as u64) << 56 | ((value >> 48) as u8 as u64) << 48 | ((value
        >> 40) as u8 as u64) << 40 | ((value >> 32) as u8 as u64) << 32 | ((value
        >> 24) as u8 as u64) << 24 | ((value >> 16) as u8 as u64) << 16 | ((value
        >> 8) as u8 as u64) << 8 | (value as u8 as u64) == value) by (bit_vector);
}

/// Numbers stand in bytes most significant byte first, in both directions; of a
/// field of 13 or 12 bits the bits before it are of no account.
pub proof fn law_fields_are_big_endian(value: u16, above: u8)
    ensures
        be16((value / 256) as u8, (value % 256) as u8) == value,
        be16_bytes(value) == seq![(value / 256) as u8, (value % 256) as u8],
        value < 8192 && above < 8 ==> be13((32 * above + value / 256) as u8, (value % 256) as u8)
            == value,
        value < 4096 && above < 16 ==> be12((16 * above + value / 256) as u8, (value % 256) as u8)
            == value,
{
}

/// Four bytes in a row are a 32-bit number, most significant byte first.
pub proof fn law_be32_is_big_endian(value: u32)
    ensures
        be32_bytes(value).len() == 4,
        be32_bytes(value)[0] * 0x100_0000 + be32_bytes(value)[1] * 0x1_0000 + be32_bytes(value)[2]
            * 0x100 + be32_bytes(value)[3] == value,
{
    assert((value >> 24) as u8 * 0x100_0000 + (value >> 16) as u8 * 0x1_0000 + (value >> 8) as u8
        * 0x100 + value as u8 == value) by (bit_vector);
}

/// Eight bytes in a row are a 64-bit number, most significant byte first, in
/// both directions.
pub proof fn law_be64_is_big_endian(value: u64, b: Seq<u8>)
    requires
        b.len() == 8,
    ensures
        be64(b) == b[0] * 0x100_0000_0000_0000 + b[1] * 0x1_0000_0000_0000 + b[2] * 0x100_0000_0000
            + b[3] * 0x1_0000_0000 + b[4] * 0x100_0000 + b[5] * 0x1_0000 + b[6] * 0x100 + b[7],
        be64(be64_bytes(value)) == value,
        be64_bytes(value).len() == 8,
{
    let (b0, b1, b2, b3) = (b[0], b[1], b[2], b[3]);
    let (b4, b5, b6, b7) = (b[4], b[5], b[6], b[7]);
    assert(((b0 as u64) << 56 | (b1 as u64) << 48 | (b2 as u64) << 40 | (b3 as u64) << 32 | (
    b4 as u64) << 24 | (b5 as u64) << 16 | (b6 as u64) << 8 | b7 as u64) == b0
        * 0x100_0000_0000_0000 + b1 * 0x1_0000_0000_0000 + b2 * 0x100_0000_0000 + b3 * 0x1_0000_0000
        + b4 * 0x100_0000 + b5 * 0x1_0000 + b6 * 0x100 + b7) by (bit_vector);
    lemma_be64_round_trip(value);
}

} // verus!
