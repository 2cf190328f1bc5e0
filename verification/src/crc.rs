//! The CRC that closes every program table section.

use vstd::prelude::*;

use crate::bytes::be32_bytes;

verus! {

/// The generator polynomial, without its leading term.
pub const POLYNOMIAL: u32 = 0x04C1_1DB7;

/// The register before the first byte.
pub const INITIAL: u32 = 0xFFFF_FFFF;

/// One division step: the top bit leaves, and the polynomial is subtracted
/// where that bit was set.
pub open spec fn crc_bit(crc: u32) -> u32 {
    if crc & 0x8000_0000u32 != 0 {
        (crc << 1) ^ POLYNOMIAL
    } else {
        crc << 1
    }
}

/// `count` division steps.
pub open spec fn crc_bits(crc: u32, count: nat) -> u32
    decreases count,
{
    if count == 0 {
        crc
    } else {
        crc_bit(crc_bits(crc, (count - 1) as nat))
    }
}

/// The register after one more byte.
pub open spec fn crc_byte(crc: u32, byte: u8) -> u32 {
    crc_bits(crc ^ ((byte as u32) << 24), 8)
}

/// The register after `data`, starting from `crc`.
pub open spec fn crc_from(crc: u32, data: Seq<u8>) -> u32
    decreases data.len(),
{
    if data.len() == 0 {
        crc
    } else {
        crc_byte(crc_from(crc, data.drop_last()), data.last())
    }
}

/// The CRC-32/MPEG-2 of `data`.
pub open spec fn crc32(data: Seq<u8>) -> u32 {
    crc_from(INITIAL, data)
}

/// Computes the CRC-32/MPEG-2 of `data`: most significant bit first, no
/// reflection, no final inversion.
pub fn mpeg_crc32(data: &[u8]) -> (crc: u32)
    ensures
        crc == crc32(data@),
{
    let mut crc: u32 = INITIAL;
    let mut i: usize = 0;
    assert(data@.take(0) =~= Seq::<u8>::empty());
    while i < data.len()
        invariant
            i <= data@.len(),
            crc == crc32(data@.take(i as int)),
        decreases data@.len() - i,
    {
        let ghost before = crc;
        let byte: u8 = data[i];
        crc = crc ^ ((byte as u32) << 24);
        let ghost mixed = crc;
        let mut bit: u32 = 0;
        while bit < 8
            invariant
                bit <= 8,
                crc == crc_bits(mixed, bit as nat),
            decreases 8 - bit,
        {
            if crc & 0x8000_0000 != 0 {
                crc = (crc << 1) ^ POLYNOMIAL;
            } else {
                crc = crc << 1;
            }
            bit += 1;
        }
        i += 1;
        assert(data@.take(i as int).drop_last() =~= data@.take(i - 1));
        assert(data@.take(i as int).last() == byte);
    }
    assert(data@.take(i as int) =~= data@);
    crc
}

/// Feeding the register its own top byte shifts it by eight.
proof fn lemma_own_byte(crc: u32)
    ensures
        crc_byte(crc, (crc >> 24) as u8) == crc << 8,
{
    let x0 = crc ^ (((crc >> 24) as u8 as u32) << 24);
    assert(x0 < 0x0100_0000u32) by (bit_vector)
        requires
            x0 == crc ^ (((crc >> 24) as u8 as u32) << 24),
    ;
    reveal_with_fuel(crc_bits, 9);
    assert(x0 & 0x8000_0000u32 == 0 && (x0 << 1u32) & 0x8000_0000u32 == 0 && (x0 << 2u32) & 0x8000_0000u32 == 0 && (x0 << 3u32) & 0x8000_0000u32 == 0 && (x0 << 4u32) & 0x8000_0000u32 == 0 && (x0 << 5u32) & 0x8000_0000u32 == 0 && (x0 << 6u32) & 0x8000_0000u32 == 0 && (x0 << 7u32) & 0x8000_0000u32 == 0) by (bit_vector)
        requires
            x0 < 0x0100_0000u32,
    ;
    assert((x0 << 1u32) << 1 == x0 << 2u32 && (x0 << 2u32) << 1 == x0 << 3u32 && (x0 << 3u32) << 1 == x0 << 4u32 && (x0 << 4u32) << 1 == x0 << 5u32 && (x0 << 5u32) << 1 == x0 << 6u32 && (x0 << 6u32) << 1 == x0 << 7u32 && (x0 << 7u32) << 1 == x0 << 8u32) by (bit_vector);
    assert(crc_bits(x0, 1) == x0 << 1u32);
    assert(crc_bits(x0, 2) == x0 << 2u32);
    assert(crc_bits(x0, 3) == x0 << 3u32);
    assert(crc_bits(x0, 4) == x0 << 4u32);
    assert(crc_bits(x0, 5) == x0 << 5u32);
    assert(crc_bits(x0, 6) == x0 << 6u32);
    assert(crc_bits(x0, 7) == x0 << 7u32);
    assert(crc_bits(x0, 8) == x0 << 8u32);
    assert(x0 << 8u32 == crc << 8) by (bit_vector)
        requires
            x0 == crc ^ (((crc >> 24) as u8 as u32) << 24),
    ;
}

/// The register runs over two sequences one after the other.
pub proof fn lemma_crc_concat(crc: u32, a: Seq<u8>, b: Seq<u8>)
    ensures
        crc_from(crc, a + b) == crc_from(crc_from(crc, a), b),
    decreases b.len(),
{
    if b.len() == 0 {
        assert(a + b =~= a);
    } else {
        assert((a + b).drop_last() =~= a + b.drop_last());
        lemma_crc_concat(crc, a, b.drop_last());
    }
}

/// A sequence followed by its own CRC has CRC zero: the test by which a
/// receiver accepts a section.
pub proof fn law_crc_of_sealed_data_is_zero(data: Seq<u8>)
    ensures
        crc32(data + be32_bytes(crc32(data))) == 0,
{
    let c = crc32(data);
    let tail = be32_bytes(c);
    lemma_crc_concat(INITIAL, data, tail);
    lemma_own_byte(c);
    lemma_own_byte(c << 8);
    lemma_own_byte((c << 8) << 8);
    lemma_own_byte(((c << 8) << 8) << 8);
    assert(((c << 8) >> 24) as u8 == (c >> 16) as u8) by (bit_vector);
    assert((((c << 8) << 8) >> 24) as u8 == (c >> 8) as u8) by (bit_vector);
    assert(((((c << 8) << 8) << 8) >> 24) as u8 == c as u8) by (bit_vector);
    assert((((c << 8) << 8) << 8) << 8 == 0) by (bit_vector);
    reveal_with_fuel(crc_from, 5);
    assert(tail.drop_last() =~= seq![(c >> 24) as u8, (c >> 16) as u8, (c >> 8) as u8]);
    assert(tail.drop_last().drop_last() =~= seq![(c >> 24) as u8, (c >> 16) as u8]);
    assert(tail.drop_last().drop_last().drop_last() =~= seq![(c >> 24) as u8]);
    assert(tail.drop_last().drop_last().drop_last().drop_last() =~= Seq::<u8>::empty());
}

/// One step of the division by the polynomial of CRC-32/MPEG-2.
pub open spec fn division_step(crc: u32) -> u32 {
    if crc >= 0x8000_0000 {
        (((crc - 0x8000_0000) * 2) as u32) ^ 0x04C1_1DB7
    } else {
        (crc * 2) as u32
    }
}

/// The checksum begins with all bits set; every byte is taken into its upper
/// end, and eight steps of division follow.
pub proof fn law_crc_divides_byte_by_byte(data: Seq<u8>, byte: u8)
    ensures
        crc32(Seq::empty()) == 0xFFFF_FFFF,
        ({
            let mixed = crc32(data) ^ ((byte as u32) << 24);
            let half = division_step(division_step(division_step(division_step(mixed))));
            crc32(data.push(byte)) == division_step(
                division_step(division_step(division_step(half))),
            )
        }),
{
    assert(data.push(byte).drop_last() =~= data);
    let mixed = crc32(data) ^ ((byte as u32) << 24);
    reveal_with_fuel(crc_bits, 9);
    assert forall|x: u32| #[trigger] crc_bit(x) == division_step(x) by {
        lemma_division_step(x);
    }
}

/// A step in the register is a step of the division.
proof fn lemma_division_step(x: u32)
    ensures
        crc_bit(x) == division_step(x),
{
    assert(x & 0x8000_0000u32 != 0 <==> x >= 0x8000_0000u32) by (bit_vector);
    if x >= 0x8000_0000 {
        assert(x << 1u32 == ((x - 0x8000_0000u32) * 2) as u32) by (bit_vector)
            requires
                x >= 0x8000_0000u32,
        ;
    } else {
        assert(x << 1u32 == (x * 2) as u32) by (bit_vector)
            requires
                x < 0x8000_0000u32,
        ;
    }
}

} // verus!
