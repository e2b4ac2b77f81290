//! The orderings of IEEE-754 binary64 values, stated on their bit patterns
//! (as `f64::to_bits` gives them): the comparison `<`, under which NaN is
//! unordered and the two zeros are equal, and the total order of `total_cmp`.

use vstd::prelude::*;

verus! {

/// The bits below the sign bit.
pub const MAGNITUDE_MASK: u64 = 0x7fff_ffff_ffff_ffff;

/// The pattern of positive infinity: every exponent bit set, no fraction bit.
pub const INFINITY_BITS: u64 = 0x7ff0_0000_0000_0000;

/// Whether the sign bit is set.
pub open spec fn sign_bit(b: u64) -> bool {
    b >> 63u64 == 1
}

/// The exponent and fraction bits, read as one unsigned number. For numbers of
/// one sign it grows with the absolute value.
pub open spec fn magnitude(b: u64) -> u64 {
    b & MAGNITUDE_MASK
}

/// A NaN: every exponent bit set and a fraction other than zero.
pub open spec fn is_nan(b: u64) -> bool {
    magnitude(b) > INFINITY_BITS
}

/// Where a value that is not NaN lies on the number line: its magnitude,
/// negated for negative numbers. Both zeros lie at 0.
pub open spec fn value_key(b: u64) -> int {
    if sign_bit(b) {
        -(magnitude(b) as int)
    } else {
        magnitude(b) as int
    }
}

/// `a < b` on the values that the patterns encode.
pub open spec fn float_lt(a: u64, b: u64) -> bool {
    !is_nan(a) && !is_nan(b) && value_key(a) < value_key(b)
}

/// The total order of IEEE-754 `totalOrder` (Rust's `f64::total_cmp`): negative
/// patterns before positive ones, ordered by decreasing magnitude among the
/// negative and increasing magnitude among the positive, NaNs included.
pub open spec fn total_lt(a: u64, b: u64) -> bool {
    if sign_bit(a) != sign_bit(b) {
        sign_bit(a)
    } else if sign_bit(a) {
        magnitude(a) > magnitude(b)
    } else {
        magnitude(a) < magnitude(b)
    }
}

/// A signed integer that `total_lt` orders by.
pub open spec fn total_key(b: u64) -> int {
    if sign_bit(b) {
        -1 - magnitude(b) as int
    } else {
        magnitude(b) as int
    }
}

proof fn lemma_bits(b: u64)
    ensures
        magnitude(b) <= MAGNITUDE_MASK,
        b >> 63u64 == 0 || b >> 63u64 == 1,
        b == (if sign_bit(b) { 0x8000_0000_0000_0000u64 } else { 0u64 }) | magnitude(b),
{
    assert(b & 0x7fff_ffff_ffff_ffffu64 <= 0x7fff_ffff_ffff_ffffu64) by (bit_vector);
    assert(b >> 63u64 == 0 || b >> 63u64 == 1) by (bit_vector);
    assert(b == (if b >> 63u64 == 1 { 0x8000_0000_0000_0000u64 } else { 0u64 }) | (b
        & 0x7fff_ffff_ffff_ffffu64)) by (bit_vector);
}

/// Whether the pattern is a NaN.
pub fn is_nan_bits(b: u64) -> (r: bool)
    ensures
        r == is_nan(b),
{
    (b & MAGNITUDE_MASK) > INFINITY_BITS
}

/// `a < b` for the values whose patterns are `a` and `b`.
pub fn float_lt_bits(a: u64, b: u64) -> (r: bool)
    ensures
        r == float_lt(a, b),
{
    proof {
        lemma_bits(a);
        lemma_bits(b);
    }
    if is_nan_bits(a) || is_nan_bits(b) {
        return false;
    }
    let ma = a & MAGNITUDE_MASK;
    let mb = b & MAGNITUDE_MASK;
    let negative_a = (a >> 63) == 1;
    let negative_b = (b >> 63) == 1;
    if negative_a && negative_b {
        ma > mb
    } else if negative_a {
        ma != 0 || mb != 0
    } else if negative_b {
        false
    } else {
        ma < mb
    }
}

/// The key of `b` in the total order: comparing keys compares patterns as
/// `f64::total_cmp` does.
pub fn total_order_key(b: u64) -> (k: i64)
    ensures
        k == total_key(b),
{
    proof {
        lemma_bits(b);
    }
    let m = (b & MAGNITUDE_MASK) as i64;
    if (b >> 63) == 1 {
        -1 - m
    } else {
        m
    }
}

/// `total_lt` is the order of the keys, and distinct patterns have distinct
/// keys: the total order is strict and total on all bit patterns.
pub proof fn lemma_total_order(a: u64, b: u64)
    ensures
        total_lt(a, b) <==> total_key(a) < total_key(b),
        a != b ==> total_key(a) != total_key(b),
        a != b ==> (total_lt(a, b) || total_lt(b, a)),
        !(total_lt(a, b) && total_lt(b, a)),
        -0x8000_0000_0000_0000 <= total_key(a) < 0x8000_0000_0000_0000,
{
    lemma_bits(a);
    lemma_bits(b);
}

/// `float_lt` is a strict weak order on the values that are not NaN: no value
/// is below itself, the order is transitive, and two values neither of which
/// is below the other lie at the same point (the same number, or the two
/// zeros).
pub proof fn lemma_float_order(a: u64, b: u64, c: u64)
    ensures
        !float_lt(a, a),
        float_lt(a, b) && float_lt(b, c) ==> float_lt(a, c),
        !is_nan(a) && !is_nan(b) && !float_lt(a, b) && !float_lt(b, a) ==> value_key(a)
            == value_key(b),
        !is_nan(a) && !is_nan(b) && !is_nan(c) && !float_lt(b, a) && !float_lt(c, b) ==> !float_lt(
            c,
            a,
        ),
{
}

/// On values that are not NaN the total order refines `<`: a value below
/// another is also before it in the total order.
pub proof fn lemma_total_refines_float(a: u64, b: u64)
    ensures
        float_lt(a, b) ==> total_lt(a, b),
{
    lemma_bits(a);
    lemma_bits(b);
}

} // verus!
