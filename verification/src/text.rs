//! Numbers as text, and the order of names.

use vstd::prelude::*;

verus! {

/// A number in decimal digits, without leading zeros.
pub open spec fn decimal(value: nat) -> Seq<u8>
    decreases value,
{
    if value < 10 {
        seq![(0x30 + value) as u8]
    } else {
        decimal(value / 10).push((0x30 + value % 10) as u8)
    }
}

/// A lower-case hexadecimal digit.
pub open spec fn hex_digit(value: int) -> u8 {
    if value < 10 {
        (0x30 + value) as u8
    } else {
        (0x57 + value) as u8
    }
}

/// A number in four lower-case hexadecimal digits.
pub open spec fn hex4(value: u16) -> Seq<u8> {
    seq![
        hex_digit(value as int / 4096),
        hex_digit((value as int / 256) % 16),
        hex_digit((value as int / 16) % 16),
        hex_digit(value as int % 16),
    ]
}

/// Appends a number in decimal digits.
pub fn append_decimal(out: &mut Vec<u8>, value: u64)
    ensures
        final(out)@ == old(out)@ + decimal(value as nat),
    decreases value,
{
    if value >= 10 {
        append_decimal(out, value / 10);
    }
    out.push(0x30 + (value % 10) as u8);
    assert(out@ =~= old(out)@ + decimal(value as nat));
}

/// A lower-case hexadecimal digit.
fn to_hex_digit(value: u8) -> (digit: u8)
    requires
        value < 16,
    ensures
        digit == hex_digit(value as int),
{
    if value < 10 {
        0x30 + value
    } else {
        0x57 + value
    }
}

/// Appends a number in four hexadecimal digits.
pub fn append_hex4(out: &mut Vec<u8>, value: u16)
    ensures
        final(out)@ == old(out)@ + hex4(value),
{
    out.push(to_hex_digit((value / 4096) as u8));
    out.push(to_hex_digit(((value / 256) % 16) as u8));
    out.push(to_hex_digit(((value / 16) % 16) as u8));
    out.push(to_hex_digit((value % 16) as u8));
    assert(out@ =~= old(out)@ + hex4(value));
}

/// Whether `a` comes before `b`: byte by byte, a prefix before what it begins.
pub open spec fn precedes(a: Seq<u8>, b: Seq<u8>) -> bool
    decreases a.len(),
{
    if b.len() == 0 {
        false
    } else if a.len() == 0 {
        true
    } else if a[0] != b[0] {
        a[0] < b[0]
    } else {
        precedes(a.drop_first(), b.drop_first())
    }
}

/// Of two names, one comes first unless they are the same.
pub proof fn law_order_is_total(a: Seq<u8>, b: Seq<u8>)
    ensures
        precedes(a, b) || precedes(b, a) || a == b,
        !(precedes(a, b) && precedes(b, a)),
        precedes(a, b) ==> a != b,
    decreases a.len(),
{
    if a.len() == 0 {
        if b.len() == 0 {
            assert(a =~= b);
        }
    } else if b.len() > 0 && a[0] == b[0] {
        law_order_is_total(a.drop_first(), b.drop_first());
        if a.drop_first() == b.drop_first() {
            assert(a =~= seq![a[0]] + a.drop_first());
            assert(b =~= seq![b[0]] + b.drop_first());
        }
    }
}

/// The order is transitive.
pub proof fn law_order_is_transitive(a: Seq<u8>, b: Seq<u8>, c: Seq<u8>)
    requires
        precedes(a, b),
        precedes(b, c),
    ensures
        precedes(a, c),
    decreases a.len(),
{
    if a.len() > 0 && a[0] == b[0] && b[0] == c[0] {
        law_order_is_transitive(a.drop_first(), b.drop_first(), c.drop_first());
    }
}

/// Whether `a` comes before `b`.
pub fn comes_before(a: &[u8], b: &[u8]) -> (before: bool)
    ensures
        before == precedes(a@, b@),
{
    let mut i: usize = 0;
    assert(a@.skip(0) =~= a@);
    assert(b@.skip(0) =~= b@);
    while i < a.len() && i < b.len()
        invariant
            i <= a@.len(),
            i <= b@.len(),
            precedes(a@, b@) == precedes(a@.skip(i as int), b@.skip(i as int)),
        decreases a@.len() - i,
    {
        if a[i] != b[i] {
            return a[i] < b[i];
        }
        proof {
            assert(a@.skip(i as int).drop_first() =~= a@.skip(i + 1));
            assert(b@.skip(i as int).drop_first() =~= b@.skip(i + 1));
        }
        i += 1;
    }
    i < b.len()
}

/// The number that a row of decimal digits stands for.
pub open spec fn decimal_value(digits: Seq<u8>) -> int
    decreases digits.len(),
{
    if digits.len() == 0 {
        0
    } else {
        10 * decimal_value(digits.drop_last()) + (digits.last() - 0x30)
    }
}

/// A number in decimal reads back as that number; it holds digits only, and
/// begins with a zero only where it is zero.
pub proof fn law_decimal_reads_back(value: nat)
    ensures
        decimal_value(decimal(value)) == value,
        decimal(value).len() > 0,
        forall|i: int| 0 <= i < decimal(value).len() ==> 0x30 <= #[trigger] decimal(value)[i] <= 0x39,
        value > 0 ==> decimal(value)[0] != 0x30,
        value == 0 ==> decimal(value).len() == 1,
    decreases value,
{
    let digits = decimal(value);
    reveal_with_fuel(decimal_value, 2);
    if value < 10 {
        assert(digits.drop_last() =~= Seq::<u8>::empty());
    } else {
        law_decimal_reads_back(value / 10);
        assert(digits.drop_last() =~= decimal(value / 10));
        assert(digits[0] == decimal(value / 10)[0]);
        assert forall|i: int| 0 <= i < digits.len() implies 0x30 <= #[trigger] digits[i] <= 0x39 by {
            if i < digits.len() - 1 {
                assert(digits[i] == decimal(value / 10)[i]);
            }
        }
    }
}

/// The value of a hexadecimal digit, where letters are in lower case.
pub open spec fn hex_value(digit: u8) -> int {
    if 0x30 <= digit <= 0x39 {
        digit - 0x30
    } else if 0x61 <= digit <= 0x66 {
        digit - 0x61 + 10
    } else {
        -1
    }
}

/// A number in hexadecimal reads back as that number, from four digits of which
/// none is in upper case.
pub proof fn law_hex_reads_back(value: u16)
    ensures
        hex4(value).len() == 4,
        forall|i: int| 0 <= i < 4 ==> 0 <= hex_value(#[trigger] hex4(value)[i]) <= 15,
        hex_value(hex4(value)[0]) * 4096 + hex_value(hex4(value)[1]) * 256 + hex_value(
            hex4(value)[2],
        ) * 16 + hex_value(hex4(value)[3]) == value,
{
    let v = value as int;
    lemma_hex_digit(v / 4096);
    lemma_hex_digit((v / 256) % 16);
    lemma_hex_digit((v / 16) % 16);
    lemma_hex_digit(v % 16);
    assert(v / 16 == (v / 256) * 16 + (v / 16) % 16);
    assert(v / 256 == (v / 4096) * 16 + (v / 256) % 16);
    assert forall|i: int| 0 <= i < 4 implies 0 <= hex_value(#[trigger] hex4(value)[i]) <= 15 by {
        assert(i == 0 || i == 1 || i == 2 || i == 3);
    }
}

/// A digit reads back.
proof fn lemma_hex_digit(value: int)
    requires
        0 <= value < 16,
    ensures
        hex_value(hex_digit(value)) == value,
{
}

/// Names are in the order of the first byte in which they differ, and a name
/// comes before all that go on from it.
pub proof fn law_order_is_by_first_difference(
    common: Seq<u8>,
    x: u8,
    a: Seq<u8>,
    y: u8,
    b: Seq<u8>,
)
    requires
        x < y,
    ensures
        precedes(common + seq![x] + a, common + seq![y] + b),
        !precedes(common + seq![y] + b, common + seq![x] + a),
        precedes(common, common + seq![y] + b),
        !precedes(common, common),
    decreases common.len(),
{
    let p = common + seq![x] + a;
    let q = common + seq![y] + b;
    if common.len() > 0 {
        let rest = common.drop_first();
        law_order_is_by_first_difference(rest, x, a, y, b);
        assert(p.drop_first() =~= rest + seq![x] + a);
        assert(q.drop_first() =~= rest + seq![y] + b);
        assert(p[0] == common[0] && q[0] == common[0]);
    } else {
        assert(p[0] == x && q[0] == y);
    }
}

} // verus!
