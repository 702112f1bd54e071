//! Numeric values of the calculator, carried as IEEE 754 binary64 bit
//! patterns in a `u64`.
//!
//! Verus cannot reason about floating-point arithmetic itself, so every
//! arithmetic step is delegated to the `rustc_apfloat` soft-float library,
//! which implements IEEE 754 binary64 exactly, on plain bit patterns.
//! Each operation's result is named by an uninterpreted spec function:
//! the same bits in always give the same bits out, on every machine.
use rustc_apfloat::Float;
use rustc_apfloat::ieee::Double;
use vstd::prelude::*;

verus! {

/// The bit pattern of the value zero (positive zero).
pub const ZERO_BITS: u64 = 0;

/// The bit pattern of negative zero: only the sign bit is set.
pub const NEG_ZERO_BITS: u64 = 0x8000_0000_0000_0000;

/// The binary64 value denoted by a numeric literal, as a bit pattern.
pub uninterp spec fn lit_bits_of(s: Seq<char>) -> u64;

/// The binary64 sum of two values given as bit patterns.
pub uninterp spec fn add_bits_of(a: u64, b: u64) -> u64;

/// The binary64 difference of two values given as bit patterns.
pub uninterp spec fn sub_bits_of(a: u64, b: u64) -> u64;

/// The binary64 product of two values given as bit patterns.
pub uninterp spec fn mul_bits_of(a: u64, b: u64) -> u64;

/// The binary64 quotient of two values given as bit patterns.
pub uninterp spec fn div_bits_of(a: u64, b: u64) -> u64;

/// A bit pattern denotes the value zero exactly when it is one of the two
/// IEEE 754 zeros: all bits clear, or only the sign bit set.
pub open spec fn is_zero_bits_spec(b: u64) -> bool {
    b == ZERO_BITS || b == NEG_ZERO_BITS
}

/// Relies on `rustc_apfloat::ieee::Double`'s `FromStr`: parsing a decimal
/// string rounds to the nearest binary64 value, and a string of digits with
/// an optional fractional part and an optional exponent always parses.
#[verifier::external_body]
pub(crate) fn parse_literal_bits(s: &str) -> (r: Option<u64>)
    ensures
        r matches Some(b) ==> b == lit_bits_of(s@),
        crate::lexer::is_literal_chars(s@) ==> r is Some,
{
    s.parse::<Double>().ok().map(|d| d.to_bits() as u64)
}

/// Relies on `rustc_apfloat::ieee::Double`'s `Add`: IEEE 754 binary64
/// addition, rounding to nearest, ties to even.
#[verifier::external_body]
pub(crate) fn add_bits(a: u64, b: u64) -> (r: u64)
    ensures
        r == add_bits_of(a, b),
{
    (Double::from_bits(a as u128) + Double::from_bits(b as u128)).value.to_bits() as u64
}

/// Relies on `rustc_apfloat::ieee::Double`'s `Sub`: IEEE 754 binary64
/// subtraction, rounding to nearest, ties to even.
#[verifier::external_body]
pub(crate) fn sub_bits(a: u64, b: u64) -> (r: u64)
    ensures
        r == sub_bits_of(a, b),
{
    (Double::from_bits(a as u128) - Double::from_bits(b as u128)).value.to_bits() as u64
}

/// Relies on `rustc_apfloat::ieee::Double`'s `Mul`: IEEE 754 binary64
/// multiplication, rounding to nearest, ties to even.
#[verifier::external_body]
pub(crate) fn mul_bits(a: u64, b: u64) -> (r: u64)
    ensures
        r == mul_bits_of(a, b),
{
    (Double::from_bits(a as u128) * Double::from_bits(b as u128)).value.to_bits() as u64
}

/// Relies on `rustc_apfloat::ieee::Double`'s `Div`: IEEE 754 binary64
/// division, rounding to nearest, ties to even.
#[verifier::external_body]
pub(crate) fn div_bits(a: u64, b: u64) -> (r: u64)
    ensures
        r == div_bits_of(a, b),
{
    (Double::from_bits(a as u128) / Double::from_bits(b as u128)).value.to_bits() as u64
}

/// Relies on `rustc_apfloat::Float::is_zero`: a binary64 bit pattern is
/// categorised as zero exactly when its exponent and significand bits are
/// all clear, leaving only the two patterns named by `is_zero_bits_spec`.
#[verifier::external_body]
pub(crate) fn is_zero_bits(b: u64) -> (r: bool)
    ensures
        r == is_zero_bits_spec(b),
{
    Double::from_bits(b as u128).is_zero()
}

} // verus!
