//! Single-precision values as the game stores them: a 32-bit IEEE-754
//! binary32 encoding held in a `u32`.
//!
//! The element fields that carry speeds, thresholds, densities and timers are
//! shared with the game as raw binary32 words. Comparisons, negation and
//! absolute value are exact on the encoding and are stated over it here.
//! Sums, products, quotients, remainders and roundings are computed by
//! `rustc_apfloat`'s software `Single`, which rounds as the hardware does;
//! each is a named result of its arguments, and everything the physics
//! decides from such results is stated exactly over those names.
use rustc_apfloat::ieee::Single;
use rustc_apfloat::{Float, Round};
use vstd::prelude::*;

verus! {

/// Encoding of `0.0`.
pub const ZERO: u32 = 0;

/// Encoding of `1.0`.
pub const ONE: u32 = 0x3f80_0000;

/// Encoding of `-1.0`.
pub const MINUS_ONE: u32 = 0xbf80_0000;

/// Encoding of `60.0`: the speed to which a body pushed down through a
/// lighter one is cut.
pub const SIXTY: u32 = 0x4270_0000;

/// Encoding of positive infinity.
pub const INFINITY: u32 = 0x7f80_0000;

/// The sign bit.
pub const SIGN: u32 = 0x8000_0000;

/// Encoding of `0.5`.
pub const HALF: u32 = 0x3f00_0000;

/// Encoding of `0.9`: what remains of a vertical speed after a hit.
pub const NINE_TENTHS: u32 = 0x3f66_6666;

/// Encoding of `-60.0`.
pub const MINUS_SIXTY: u32 = 0xc270_0000;

/// Encoding of `6.0`: below this sideways speed a slide is over.
pub const SIX: u32 = 0x40c0_0000;

/// Encoding of `-6.0`.
pub const MINUS_SIX: u32 = 0xc0c0_0000;

/// Encoding of `2^24`.
pub const TWO_POW_24: u32 = 0x4b80_0000;

/// Magnitude part of an encoding: exponent and fraction.
pub open spec fn magnitude(b: u32) -> int {
    (b as int) % 0x8000_0000
}

/// The sign bit is set.
pub open spec fn negative(b: u32) -> bool {
    b >= 0x8000_0000
}

/// Not a number: all exponent bits set and a nonzero fraction.
pub open spec fn is_nan(b: u32) -> bool {
    magnitude(b) > 0x7f80_0000
}

/// Position of a value on the number line. Binary32 is sign-magnitude, and
/// magnitudes are ordered as unsigned integers; both zeros land on 0.
pub open spec fn order_key(b: u32) -> int {
    if negative(b) {
        -magnitude(b)
    } else {
        magnitude(b)
    }
}

/// IEEE `a > b`: false whenever either side is NaN.
pub open spec fn gt(a: u32, b: u32) -> bool {
    !is_nan(a) && !is_nan(b) && order_key(a) > order_key(b)
}

/// IEEE `a < b`.
pub open spec fn lt(a: u32, b: u32) -> bool {
    gt(b, a)
}

/// IEEE `a <= b`: false whenever either side is NaN.
pub open spec fn le(a: u32, b: u32) -> bool {
    !is_nan(a) && !is_nan(b) && order_key(a) <= order_key(b)
}

/// IEEE `a == b`: `0.0 == -0.0`, and NaN equals nothing.
pub open spec fn eq(a: u32, b: u32) -> bool {
    !is_nan(a) && !is_nan(b) && order_key(a) == order_key(b)
}

/// IEEE `a >= b`: false whenever either side is NaN.
pub open spec fn ge(a: u32, b: u32) -> bool {
    le(b, a)
}

/// Encoding of `|v|`: the sign bit cleared.
pub open spec fn abs(b: u32) -> u32 {
    if negative(b) {
        (b - 0x8000_0000) as u32
    } else {
        b
    }
}

/// Encoding of `-v`: the sign bit flipped, whatever the value.
pub open spec fn neg(b: u32) -> u32 {
    if negative(b) {
        (b - 0x8000_0000) as u32
    } else {
        (b + 0x8000_0000) as u32
    }
}

fn key_of(b: u32) -> (k: i64)
    ensures
        k == order_key(b),
{
    let m = b % 0x8000_0000;
    if b >= 0x8000_0000 {
        -(m as i64)
    } else {
        m as i64
    }
}

/// `a > b` on two encoded values.
pub fn greater(a: u32, b: u32) -> (r: bool)
    ensures
        r == gt(a, b),
{
    if a % 0x8000_0000 > 0x7f80_0000 || b % 0x8000_0000 > 0x7f80_0000 {
        return false;
    }
    key_of(a) > key_of(b)
}

/// `a <= b` on two encoded values.
pub fn less_or_equal(a: u32, b: u32) -> (r: bool)
    ensures
        r == le(a, b),
{
    if a % 0x8000_0000 > 0x7f80_0000 || b % 0x8000_0000 > 0x7f80_0000 {
        return false;
    }
    key_of(a) <= key_of(b)
}

/// `a >= b` on two encoded values.
pub fn greater_or_equal(a: u32, b: u32) -> (r: bool)
    ensures
        r == ge(a, b),
{
    less_or_equal(b, a)
}

/// `a < b` on two encoded values.
pub fn less(a: u32, b: u32) -> (r: bool)
    ensures
        r == lt(a, b),
{
    greater(b, a)
}

/// Encoding of `|v|`.
pub fn absolute(v: u32) -> (r: u32)
    ensures
        r == abs(v),
{
    if v >= 0x8000_0000 {
        v - 0x8000_0000
    } else {
        v
    }
}

/// `v < 0.0`.
pub fn is_negative(v: u32) -> (r: bool)
    ensures
        r == lt(v, ZERO),
{
    greater(ZERO, v)
}

/// `v == 0.0`: true for both zeros.
pub fn is_zero(v: u32) -> (r: bool)
    ensures
        r == eq(v, ZERO),
{
    v % 0x8000_0000 == 0
}

/// Encoding of `-v`.
pub fn negate(v: u32) -> (r: u32)
    ensures
        r == neg(v),
{
    if v >= 0x8000_0000 {
        v - 0x8000_0000
    } else {
        v + 0x8000_0000
    }
}

/// The sum of two binary32 values, rounded to nearest, ties to even.
pub uninterp spec fn sum(a: u32, b: u32) -> u32;

/// The difference `a - b`, rounded to nearest, ties to even.
pub uninterp spec fn difference(a: u32, b: u32) -> u32;

/// The product, rounded to nearest, ties to even.
pub uninterp spec fn product(a: u32, b: u32) -> u32;

/// The quotient `a / b`, rounded to nearest, ties to even.
pub uninterp spec fn quotient(a: u32, b: u32) -> u32;

/// The remainder of `a / b` truncated toward zero (C `fmod`).
pub uninterp spec fn fmod_of(a: u32, b: u32) -> u32;

/// The greatest integral value not above `a`.
pub uninterp spec fn floor_of(a: u32) -> u32;

/// The least integral value not below `a`.
pub uninterp spec fn ceil_of(a: u32) -> u32;

/// `a` truncated toward zero to a 32-bit integer, saturating at the ends,
/// NaN giving zero.
pub uninterp spec fn int_of(a: u32) -> i32;

/// The binary32 value nearest to an unsigned integer.
pub uninterp spec fn from_u32_of(n: u32) -> u32;

/// `a + b`: rustc_apfloat's `Single` addition (round to nearest, ties to
/// even). The contract names the result only: it depends on the two
/// encodings alone.
#[verifier::external_body]
pub(crate) fn plus(a: u32, b: u32) -> (r: u32)
    ensures
        r == sum(a, b),
{
    (Single::from_bits(a as u128) + Single::from_bits(b as u128)).value.to_bits() as u32
}

/// `a - b`: rustc_apfloat's `Single` subtraction. Named, not stated.
#[verifier::external_body]
pub(crate) fn minus(a: u32, b: u32) -> (r: u32)
    ensures
        r == difference(a, b),
{
    (Single::from_bits(a as u128) - Single::from_bits(b as u128)).value.to_bits() as u32
}

/// `a * b`: rustc_apfloat's `Single` multiplication. Named, not stated.
#[verifier::external_body]
pub(crate) fn times(a: u32, b: u32) -> (r: u32)
    ensures
        r == product(a, b),
{
    (Single::from_bits(a as u128) * Single::from_bits(b as u128)).value.to_bits() as u32
}

/// `a / b`: rustc_apfloat's `Single` division. Named, not stated.
#[verifier::external_body]
pub(crate) fn over(a: u32, b: u32) -> (r: u32)
    ensures
        r == quotient(a, b),
{
    (Single::from_bits(a as u128) / Single::from_bits(b as u128)).value.to_bits() as u32
}

/// `a % b`: rustc_apfloat's `Single::c_fmod`, the remainder that the `%` of
/// the machine gives. Named, not stated.
#[verifier::external_body]
pub(crate) fn fmod(a: u32, b: u32) -> (r: u32)
    ensures
        r == fmod_of(a, b),
{
    Single::from_bits(a as u128).c_fmod(Single::from_bits(b as u128)).value.to_bits() as u32
}

/// Rounding toward minus infinity: rustc_apfloat's `round_to_integral`.
/// Named, not stated.
#[verifier::external_body]
pub(crate) fn floor(a: u32) -> (r: u32)
    ensures
        r == floor_of(a),
{
    Single::from_bits(a as u128).round_to_integral(Round::TowardNegative).value.to_bits() as u32
}

/// Rounding toward plus infinity: rustc_apfloat's `round_to_integral`.
/// Named, not stated.
#[verifier::external_body]
pub(crate) fn ceil(a: u32) -> (r: u32)
    ensures
        r == ceil_of(a),
{
    Single::from_bits(a as u128).round_to_integral(Round::TowardPositive).value.to_bits() as u32
}

/// Conversion to `i32`: rustc_apfloat's `to_i128` at width 32, which
/// truncates toward zero, saturates, and gives zero for NaN, as the
/// machine's cast does. Named, not stated.
#[verifier::external_body]
pub(crate) fn to_int(a: u32) -> (r: i32)
    ensures
        r == int_of(a),
{
    Single::from_bits(a as u128).to_i128(32).value as i32
}

/// Conversion from `u32`: rustc_apfloat's `from_u128`, rounded to nearest.
/// Named, not stated.
#[verifier::external_body]
pub(crate) fn from_u32(n: u32) -> (r: u32)
    ensures
        r == from_u32_of(n),
{
    Single::from_u128(n as u128).value.to_bits() as u32
}

} // verus!
