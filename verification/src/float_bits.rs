//! Reading an IEEE-754 single-precision value from its bit pattern.
//!
//! Lengths and thresholds that the library orders are handed to it as the
//! `u32` bit patterns of `f32` values (`f32::to_bits`).  The sign is the top
//! bit, the remaining 31 bits are the magnitude; all patterns whose magnitude
//! exceeds the one of infinity are NaN.  For values that are not NaN the
//! numeric order is the sign-magnitude order of the patterns, with `+0` and
//! `-0` equal.
use vstd::prelude::*;

verus! {

/// The bit pattern of positive infinity.
pub const INFINITY_BITS: u32 = 0x7f80_0000;

/// The sign bit.
pub const SIGN_BIT: u32 = 0x8000_0000;

/// Bit pattern of `1.0`.
pub const ONE_BITS: u32 = 0x3f80_0000;

pub open spec fn magnitude(bits: u32) -> u32 {
    bits & 0x7fff_ffff
}

pub open spec fn is_negative(bits: u32) -> bool {
    bits >= SIGN_BIT
}

pub open spec fn is_nan(bits: u32) -> bool {
    magnitude(bits) > INFINITY_BITS
}

/// An integer that orders bit patterns as the total order of ray lengths does:
/// the numeric order on values that are not NaN, every NaN above all of them
/// and equal to each other.
pub open spec fn order_key(bits: u32) -> int {
    if is_nan(bits) {
        SIGN_BIT as int
    } else if is_negative(bits) {
        0 - magnitude(bits)
    } else {
        magnitude(bits) as int
    }
}

/// `a < b` as `f32` comparison defines it: false as soon as one side is NaN.
pub open spec fn float_lt(a: u32, b: u32) -> bool {
    !is_nan(a) && !is_nan(b) && order_key(a) < order_key(b)
}

pub proof fn lemma_magnitude_bound(bits: u32)
    ensures
        magnitude(bits) <= 0x7fff_ffff,
{
    assert(bits & 0x7fff_ffff <= 0x7fff_ffff) by (bit_vector);
}

/// The magnitude part of a bit pattern.
pub fn magnitude_of(bits: u32) -> (r: u32)
    ensures
        r == magnitude(bits),
        r <= 0x7fff_ffff,
{
    proof {
        lemma_magnitude_bound(bits);
    }
    bits & 0x7fff_ffff
}

/// Whether a bit pattern is a NaN.
pub fn bits_is_nan(bits: u32) -> (r: bool)
    ensures
        r == is_nan(bits),
{
    magnitude_of(bits) > INFINITY_BITS
}

/// `a < b` on the `f32` values of two bit patterns.
pub fn bits_lt(a: u32, b: u32) -> (r: bool)
    ensures
        r == float_lt(a, b),
{
    if bits_is_nan(a) || bits_is_nan(b) {
        return false;
    }
    let (ma, mb) = (magnitude_of(a), magnitude_of(b));
    match (a >= SIGN_BIT, b >= SIGN_BIT) {
        (false, false) => ma < mb,
        (true, true) => mb < ma,
        (true, false) => ma != 0 || mb != 0,
        (false, true) => false,
    }
}

}

verus! {

/// Positive zero is ordered as zero.
pub proof fn lemma_zero_key()
    ensures
        order_key(0) == 0,
        !is_nan(0),
{
    assert(0u32 & 0x7fff_ffff == 0) by (bit_vector);
}

/// Negative zero has magnitude zero, so it is ordered as positive zero.
pub proof fn lemma_zeros_equal()
    ensures
        order_key(0) == order_key(SIGN_BIT),
{
    assert(0x8000_0000u32 & 0x7fff_ffff == 0) by (bit_vector);
    assert(0u32 & 0x7fff_ffff == 0) by (bit_vector);
}

}

verus! {

/// A pattern without the sign bit is its own magnitude.
pub proof fn lemma_positive_magnitude(bits: u32)
    requires
        bits < SIGN_BIT,
    ensures
        magnitude(bits) == bits,
{
    assert(bits < 0x8000_0000u32 ==> bits & 0x7fff_ffff == bits) by (bit_vector);
}

/// A uniform draw from `[0, 1)` is a number of that range: not NaN, at
/// least zero and below one.
pub proof fn lemma_unit_draw(draw: u32)
    requires
        draw < ONE_BITS,
    ensures
        !is_nan(draw),
        0 <= order_key(draw) < order_key(ONE_BITS),
{
    lemma_positive_magnitude(draw);
    lemma_positive_magnitude(ONE_BITS);
}

}

verus! {

/// `f32::min`: the smaller of two numbers, ignoring a NaN argument (the
/// other one is returned); of two equal numbers the first.
pub open spec fn float_min(a: u32, b: u32) -> u32 {
    if is_nan(a) { b } else if is_nan(b) { a } else if float_lt(b, a) { b } else { a }
}

/// `f32::max`: the larger of two numbers, ignoring a NaN argument (the
/// other one is returned); of two equal numbers the first.
pub open spec fn float_max(a: u32, b: u32) -> u32 {
    if is_nan(a) { b } else if is_nan(b) { a } else if float_lt(a, b) { b } else { a }
}

pub fn bits_min(a: u32, b: u32) -> (r: u32)
    ensures
        r == float_min(a, b),
{
    if bits_is_nan(a) { b } else if bits_is_nan(b) { a } else if bits_lt(b, a) { b } else { a }
}

pub fn bits_max(a: u32, b: u32) -> (r: u32)
    ensures
        r == float_max(a, b),
{
    if bits_is_nan(a) { b } else if bits_is_nan(b) { a } else if bits_lt(a, b) { b } else { a }
}

}
