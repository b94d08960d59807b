//! Arithmetic on IEEE 754 binary64 values, carried as their 64-bit bit
//! patterns.
//!
//! The library never holds a native float: a double travels through the
//! value model as the `u64` holding its bits. The four arithmetic
//! operations and the conversion from a 64-bit integer are computed by
//! `rustc_apfloat`, a deterministic software implementation of IEEE 754
//! with round-to-nearest-even, so each result is a function of the
//! operand bits alone and can be given a name that contracts build on.

use vstd::prelude::*;

verus! {

/// The bit pattern of the rounded sum of the doubles with bit patterns
/// `a` and `b`.
pub uninterp spec fn dbl_add(a: u64, b: u64) -> u64;

/// The bit pattern of the rounded difference of the doubles with bit
/// patterns `a` and `b`.
pub uninterp spec fn dbl_sub(a: u64, b: u64) -> u64;

/// The bit pattern of the rounded product of the doubles with bit
/// patterns `a` and `b`.
pub uninterp spec fn dbl_mul(a: u64, b: u64) -> u64;

/// The bit pattern of the rounded quotient of the doubles with bit
/// patterns `a` and `b`.
pub uninterp spec fn dbl_div(a: u64, b: u64) -> u64;

/// The bit pattern of the double nearest to the integer `x`.
pub uninterp spec fn dbl_of_i64(x: i64) -> u64;

/// Relies on `rustc_apfloat::ieee::Double`'s `Add`: the correctly rounded
/// IEEE 754 sum, a function of the operand bits alone.
#[verifier::external_body]
pub(crate) fn add_bits(a: u64, b: u64) -> (r: u64)
    ensures
        r == dbl_add(a, b),
{
    let x: rustc_apfloat::ieee::Double = rustc_apfloat::Float::from_bits(a as u128);
    let y: rustc_apfloat::ieee::Double = rustc_apfloat::Float::from_bits(b as u128);
    rustc_apfloat::Float::to_bits((x + y).value) as u64
}

/// Relies on `rustc_apfloat::ieee::Double`'s `Sub`: the correctly rounded
/// IEEE 754 difference, a function of the operand bits alone.
#[verifier::external_body]
pub(crate) fn sub_bits(a: u64, b: u64) -> (r: u64)
    ensures
        r == dbl_sub(a, b),
{
    let x: rustc_apfloat::ieee::Double = rustc_apfloat::Float::from_bits(a as u128);
    let y: rustc_apfloat::ieee::Double = rustc_apfloat::Float::from_bits(b as u128);
    rustc_apfloat::Float::to_bits((x - y).value) as u64
}

/// Relies on `rustc_apfloat::ieee::Double`'s `Mul`: the correctly rounded
/// IEEE 754 product, a function of the operand bits alone.
#[verifier::external_body]
pub(crate) fn mul_bits(a: u64, b: u64) -> (r: u64)
    ensures
        r == dbl_mul(a, b),
{
    let x: rustc_apfloat::ieee::Double = rustc_apfloat::Float::from_bits(a as u128);
    let y: rustc_apfloat::ieee::Double = rustc_apfloat::Float::from_bits(b as u128);
    rustc_apfloat::Float::to_bits((x * y).value) as u64
}

/// Relies on `rustc_apfloat::ieee::Double`'s `Div`: the correctly rounded
/// IEEE 754 quotient, a function of the operand bits alone.
#[verifier::external_body]
pub(crate) fn div_bits(a: u64, b: u64) -> (r: u64)
    ensures
        r == dbl_div(a, b),
{
    let x: rustc_apfloat::ieee::Double = rustc_apfloat::Float::from_bits(a as u128);
    let y: rustc_apfloat::ieee::Double = rustc_apfloat::Float::from_bits(b as u128);
    rustc_apfloat::Float::to_bits((x / y).value) as u64
}

/// Relies on `rustc_apfloat::Float::from_i128`: the integer rounded to the
/// nearest double, a function of the integer alone.
#[verifier::external_body]
pub(crate) fn of_i64(x: i64) -> (r: u64)
    ensures
        r == dbl_of_i64(x),
{
    let v: rustc_apfloat::ieee::Double = rustc_apfloat::Float::from_i128(x as i128).value;
    rustc_apfloat::Float::to_bits(v) as u64
}

} // verus!
