//! Candidate masks: bit `v - 1` of a 16-bit mask stands for the value `v`.
use vstd::prelude::*;

verus! {

/// Bit `i` of `mask` is set.
pub open spec fn bit_set(mask: u16, i: int) -> bool {
    0 <= i < 16 && (mask >> (i as u16)) & 1u16 == 1u16
}

/// The number of set bits of `x`.
pub open spec fn ones(x: u16) -> nat
    decreases x,
{
    if x == 0 {
        0
    } else {
        (x % 2) as nat + ones(x / 2)
    }
}

/// The mask with the bit of `value` alone.
pub open spec fn value_bit(value: int) -> u16 {
    1u16 << ((value - 1) as u16)
}

/// The bits of a single-value mask.
pub proof fn lemma_value_bit(value: int)
    requires
        1 <= value <= 16,
    ensures
        forall|i: int| 0 <= i < 16 ==> (bit_set(value_bit(value), i) <==> i == value - 1),
        ones(value_bit(value)) == 1,
{
    let k = (value - 1) as u16;
    assert forall|i: int| 0 <= i < 16 implies (bit_set(value_bit(value), i) <==> i == value - 1) by {
        let j = i as u16;
        assert(k < 16 && j < 16 ==> (((1u16 << k) >> j) & 1u16 == 1u16 <==> j == k)) by (bit_vector);
    }
    lemma_ones_of_shift(k);
}

/// A single shifted bit has one set bit.
proof fn lemma_ones_of_shift(k: u16)
    requires
        k < 16,
    ensures
        ones(1u16 << k) == 1,
    decreases k,
{
    if k == 0 {
        assert(1u16 << 0u16 == 1u16) by (bit_vector);
        assert(ones(0) == 0);
    } else {
        assert(0 < k < 16 ==> (1u16 << k) % 2 == 0 && (1u16 << k) / 2 == 1u16 << ((k - 1) as u16)
            && (1u16 << k) != 0) by (bit_vector);
        lemma_ones_of_shift((k - 1) as u16);
    }
}

/// A mask with exactly one set bit is the mask of one value.
pub proof fn lemma_single_bit(x: u16)
    requires
        ones(x) == 1,
    ensures
        exists|v: int| 1 <= v <= 16 && x == #[trigger] value_bit(v),
    decreases x,
{
    if x % 2 == 1 {
        assert(ones(x / 2) == 0);
        assert(x / 2 == 0) by {
            if x / 2 != 0 {
                lemma_ones_positive(x / 2);
            }
        }
        assert(x == 1);
        assert(value_bit(1) == 1u16) by {
            assert(1u16 << 0u16 == 1u16) by (bit_vector);
        }
    } else {
        assert(x / 2 != 0);
        lemma_single_bit(x / 2);
        let v = choose|v: int| 1 <= v <= 16 && x / 2 == #[trigger] value_bit(v);
        let k = (v - 1) as u16;
        let y = x / 2;
        assert(y == 1u16 << k);
        assert(x % 2 == 0 && y == x / 2 && y == 1u16 << k && k < 16 ==> k < 15 && x == 1u16 << ((k
            + 1) as u16)) by (bit_vector);
        assert(x == value_bit(v + 1));
    }
}

/// A non-zero mask has a set bit.
pub proof fn lemma_ones_positive(x: u16)
    requires
        x != 0,
    ensures
        ones(x) >= 1,
    decreases x,
{
    if x % 2 == 0 {
        lemma_ones_positive(x / 2);
    }
}

/// A mask has no more set bits than its value.
pub proof fn lemma_ones_le(x: u16)
    ensures
        ones(x) <= x,
    decreases x,
{
    if x != 0 {
        lemma_ones_le(x / 2);
    }
}

/// The mask of the value `value`: bit `value - 1` alone.
pub fn value_to_bit(value: u8) -> (bit: u16)
    requires
        1 <= value <= 16,
    ensures
        bit == value_bit(value as int),
        forall|i: int| 0 <= i < 16 ==> (bit_set(bit, i) <==> i == value - 1),
{
    proof {
        lemma_value_bit(value as int);
    }
    1u16 << ((value - 1) as u32)
}

/// The number of set bits of `x`.
pub fn count_ones(x: u16) -> (count: u32)
    ensures
        count == ones(x),
{
    proof {
        lemma_ones_le(x);
    }
    let mut rest = x;
    let mut count: u32 = 0;
    while rest != 0
        invariant
            count + ones(rest) == ones(x),
            ones(x) <= x,
        decreases rest,
    {
        proof {
            assert(rest & 1u16 == rest % 2 && rest >> 1u16 == rest / 2) by (bit_vector);
        }
        count = count + (rest & 1) as u32;
        rest = rest >> 1;
    }
    count
}

/// A bit of `a | b` is set exactly when it is set in `a` or in `b`.
pub proof fn lemma_bit_or(a: u16, b: u16)
    ensures
        forall|i: int| 0 <= i < 16 ==> (#[trigger] bit_set(a | b, i) <==> bit_set(a, i) || bit_set(b, i)),
{
    assert forall|i: int| 0 <= i < 16 implies (#[trigger] bit_set(a | b, i) <==> bit_set(a, i) || bit_set(b, i)) by {
        let j = i as u16;
        assert(j < 16 ==> (((a | b) >> j) & 1u16 == 1u16 <==> ((a >> j) & 1u16 == 1u16 || (b >> j) & 1u16
            == 1u16))) by (bit_vector);
    }
}

/// No bit of zero is set.
pub proof fn lemma_zero_bits()
    ensures
        forall|i: int| 0 <= i < 16 ==> !#[trigger] bit_set(0u16, i),
{
    assert forall|i: int| 0 <= i < 16 implies !#[trigger] bit_set(0u16, i) by {
        let j = i as u16;
        assert((0u16 >> j) & 1u16 == 0u16) by (bit_vector);
    }
}

/// The mask of all nine values.
pub const ALL_VALUES_MASK: u16 = 0x1ff;

/// The lowest set bit of a single-value mask is the bit of its value.
pub proof fn lemma_trailing_zeros_of_value_bit(v: int)
    requires
        1 <= v <= 16,
    ensures
        value_bit(v).trailing_zeros() == v - 1,
{
    let bit = value_bit(v);
    let k = (v - 1) as u16;
    lemma_value_bit(v);
    assert(k < 16 ==> (1u16 << k) != 0) by (bit_vector);
    vstd::std_specs::bits::axiom_u16_trailing_zeros(bit);
    let tz = bit.trailing_zeros();
    if tz < k {
        assert(bit_set(bit, tz as int));
    } else if tz > k {
        assert(bit_set(bit, k as int));
        assert((bit >> k) & 1u16 == 0u16);
    }
}

/// A bit of `a & b` is set exactly when it is set in both.
pub proof fn lemma_bit_and(a: u16, b: u16)
    ensures
        forall|i: int| 0 <= i < 16 ==> (#[trigger] bit_set(a & b, i) <==> bit_set(a, i) && bit_set(b, i)),
{
    assert forall|i: int| 0 <= i < 16 implies (#[trigger] bit_set(a & b, i) <==> bit_set(a, i) && bit_set(b, i)) by {
        let j = i as u16;
        assert(j < 16 ==> (((a & b) >> j) & 1u16 == 1u16 <==> ((a >> j) & 1u16 == 1u16 && (b >> j) & 1u16
            == 1u16))) by (bit_vector);
    }
}

/// A bit of `!a` is set exactly when it is not set in `a`.
pub proof fn lemma_bit_not(a: u16)
    ensures
        forall|i: int| 0 <= i < 16 ==> (#[trigger] bit_set(!a, i) <==> !bit_set(a, i)),
{
    assert forall|i: int| 0 <= i < 16 implies (#[trigger] bit_set(!a, i) <==> !bit_set(a, i)) by {
        let j = i as u16;
        assert(j < 16 ==> (((!a) >> j) & 1u16 == 1u16 <==> !((a >> j) & 1u16 == 1u16))) by (bit_vector);
    }
}

/// Two masks with the same bits are equal.
pub proof fn lemma_bits_equal(a: u16, b: u16)
    requires
        forall|i: int| 0 <= i < 16 ==> (#[trigger] bit_set(a, i) <==> bit_set(b, i)),
    ensures
        a == b,
{
    assert(bit_set(a, 0) == bit_set(b, 0));
    assert(bit_set(a, 1) == bit_set(b, 1));
    assert(bit_set(a, 2) == bit_set(b, 2));
    assert(bit_set(a, 3) == bit_set(b, 3));
    assert(bit_set(a, 4) == bit_set(b, 4));
    assert(bit_set(a, 5) == bit_set(b, 5));
    assert(bit_set(a, 6) == bit_set(b, 6));
    assert(bit_set(a, 7) == bit_set(b, 7));
    assert(bit_set(a, 8) == bit_set(b, 8));
    assert(bit_set(a, 9) == bit_set(b, 9));
    assert(bit_set(a, 10) == bit_set(b, 10));
    assert(bit_set(a, 11) == bit_set(b, 11));
    assert(bit_set(a, 12) == bit_set(b, 12));
    assert(bit_set(a, 13) == bit_set(b, 13));
    assert(bit_set(a, 14) == bit_set(b, 14));
    assert(bit_set(a, 15) == bit_set(b, 15));
    assert((((a >> 0u16) & 1u16 == 1u16) == ((b >> 0u16) & 1u16 == 1u16)) && (((a >> 1u16) & 1u16 == 1u16) == ((b >> 1u16) & 1u16 == 1u16)) && (((a >> 2u16) & 1u16 == 1u16) == ((b >> 2u16) & 1u16 == 1u16)) && (((a >> 3u16) & 1u16 == 1u16) == ((b >> 3u16) & 1u16 == 1u16)) && (((a >> 4u16) & 1u16 == 1u16) == ((b >> 4u16) & 1u16 == 1u16)) && (((a >> 5u16) & 1u16 == 1u16) == ((b >> 5u16) & 1u16 == 1u16)) && (((a >> 6u16) & 1u16 == 1u16) == ((b >> 6u16) & 1u16 == 1u16)) && (((a >> 7u16) & 1u16 == 1u16) == ((b >> 7u16) & 1u16 == 1u16)) && (((a >> 8u16) & 1u16 == 1u16) == ((b >> 8u16) & 1u16 == 1u16)) && (((a >> 9u16) & 1u16 == 1u16) == ((b >> 9u16) & 1u16 == 1u16)) && (((a >> 10u16) & 1u16 == 1u16) == ((b >> 10u16) & 1u16 == 1u16)) && (((a >> 11u16) & 1u16 == 1u16) == ((b >> 11u16) & 1u16 == 1u16)) && (((a >> 12u16) & 1u16 == 1u16) == ((b >> 12u16) & 1u16 == 1u16)) && (((a >> 13u16) & 1u16 == 1u16) == ((b >> 13u16) & 1u16 == 1u16)) && (((a >> 14u16) & 1u16 == 1u16) == ((b >> 14u16) & 1u16 == 1u16)) && (((a >> 15u16) & 1u16 == 1u16) == ((b >> 15u16) & 1u16 == 1u16)) ==> a == b) by (bit_vector);
}

/// A mask within the nine values has no bit from the tenth on.
pub proof fn lemma_within_all_values(a: u16)
    ensures
        (a & !ALL_VALUES_MASK == 0) <==> (forall|i: int| 9 <= i < 16 ==> !#[trigger] bit_set(a, i)),
{
    lemma_bit_and(a, !ALL_VALUES_MASK);
    lemma_bit_not(ALL_VALUES_MASK);
    lemma_zero_bits();
    assert forall|i: int| 0 <= i < 16 implies (#[trigger] bit_set(ALL_VALUES_MASK, i) <==> i < 9) by {
        let j = i as u16;
        assert(j < 16 ==> ((0x1ffu16 >> j) & 1u16 == 1u16 <==> j < 9)) by (bit_vector);
    }
    if a & !ALL_VALUES_MASK == 0 {
        assert forall|i: int| 9 <= i < 16 implies !#[trigger] bit_set(a, i) by {
            assert(!bit_set(a & !ALL_VALUES_MASK, i));
        }
    } else {
        if forall|i: int| 9 <= i < 16 ==> !#[trigger] bit_set(a, i) {
            assert forall|i: int| 0 <= i < 16 implies (#[trigger] bit_set(a & !ALL_VALUES_MASK, i) <==> bit_set(0u16, i)) by {}
            lemma_bits_equal(a & !ALL_VALUES_MASK, 0u16);
        }
    }
}

/// Clearing bits of a mask never adds set bits, and removes some exactly when the mask
/// changes.
pub proof fn lemma_ones_and(a: u16, b: u16)
    ensures
        ones(a & b) <= ones(a),
        a & b != a ==> ones(a & b) < ones(a),
    decreases a,
{
    if a == 0 {
        assert(0u16 & b == 0) by (bit_vector);
    } else {
        assert((a & b) % 2 <= a % 2 && (a & b) / 2 == (a / 2) & (b / 2) && (a & b != a ==> ((a & b) % 2
            < a % 2 || (a / 2) & (b / 2) != a / 2))) by (bit_vector);
        lemma_ones_and(a / 2, b / 2);
        if a & b != 0 {
            assert(ones(a & b) == (a & b) % 2 + ones((a & b) / 2));
        }
    }
}

/// A mask is zero exactly when no bit is set.
pub proof fn lemma_zero_iff_no_bits(x: u16)
    ensures
        x == 0 <==> forall|i: int| 0 <= i < 16 ==> !#[trigger] bit_set(x, i),
{
    lemma_zero_bits();
    if forall|i: int| 0 <= i < 16 ==> !#[trigger] bit_set(x, i) {
        assert forall|i: int| 0 <= i < 16 implies (#[trigger] bit_set(x, i) <==> bit_set(0u16, i)) by {}
        lemma_bits_equal(x, 0u16);
    }
}

} // verus!
