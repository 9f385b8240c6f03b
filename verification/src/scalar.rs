//! The numeric scalar kernel.
//!
//! A scalar is carried as the 32 bits of an IEEE-754 single-precision number.
//! The arithmetic itself is performed by outside code (`rustc_apfloat` for the
//! four elementary operations, `libm` for the transcendental ones); each
//! operation is named here by an uninterpreted spec function of the operand
//! bits, so that contracts can speak of results without restating pages of
//! floating-point semantics. Negation alone is defined outright: IEEE-754
//! negation flips the sign bit and nothing else.
use vstd::prelude::*;
use rustc_apfloat::Float;

verus! {

/// Bit pattern of the single-precision number one.
pub const ONE_BITS: u32 = 0x3f80_0000;

/// Bit pattern of the single-precision number positive zero.
pub const ZERO_BITS: u32 = 0;

/// The sum of two scalars, by bit pattern.
pub uninterp spec fn add_bits(a: u32, b: u32) -> u32;

/// The difference of two scalars, by bit pattern.
pub uninterp spec fn sub_bits(a: u32, b: u32) -> u32;

/// The product of two scalars, by bit pattern.
pub uninterp spec fn mul_bits(a: u32, b: u32) -> u32;

/// The quotient of two scalars, by bit pattern.
pub uninterp spec fn div_bits(a: u32, b: u32) -> u32;

/// `a` raised to the power `b`, by bit pattern.
pub uninterp spec fn pow_bits(a: u32, b: u32) -> u32;

/// The exponential of a scalar, by bit pattern.
pub uninterp spec fn exp_bits(a: u32) -> u32;

/// The natural logarithm of a scalar, by bit pattern.
pub uninterp spec fn ln_bits(a: u32) -> u32;

/// The sine of a scalar, by bit pattern.
pub uninterp spec fn sin_bits(a: u32) -> u32;

/// The cosine of a scalar, by bit pattern.
pub uninterp spec fn cos_bits(a: u32) -> u32;

/// The negation of a scalar: IEEE-754 negation flips the sign bit.
pub open spec fn neg_bits(a: u32) -> u32 {
    a ^ 0x8000_0000
}

/// Relies on `rustc_apfloat::ieee::Single::add_r` with round-to-nearest-even,
/// the IEEE-754 single-precision addition; the result depends on the operand
/// bits alone.
#[verifier::external_body]
pub(crate) fn scalar_add(a: u32, b: u32) -> (r: u32)
    ensures
        r == add_bits(a, b),
{
    let x = rustc_apfloat::ieee::Single::from_bits(a as u128);
    let y = rustc_apfloat::ieee::Single::from_bits(b as u128);
    x.add_r(y, rustc_apfloat::Round::NearestTiesToEven).value.to_bits() as u32
}

/// Relies on `rustc_apfloat::ieee::Single::sub_r` with round-to-nearest-even,
/// the IEEE-754 single-precision subtraction; the result depends on the
/// operand bits alone.
#[verifier::external_body]
pub(crate) fn scalar_sub(a: u32, b: u32) -> (r: u32)
    ensures
        r == sub_bits(a, b),
{
    let x = rustc_apfloat::ieee::Single::from_bits(a as u128);
    let y = rustc_apfloat::ieee::Single::from_bits(b as u128);
    x.sub_r(y, rustc_apfloat::Round::NearestTiesToEven).value.to_bits() as u32
}

/// Relies on `rustc_apfloat::ieee::Single::mul_r` with round-to-nearest-even,
/// the IEEE-754 single-precision multiplication; the result depends on the
/// operand bits alone.
#[verifier::external_body]
pub(crate) fn scalar_mul(a: u32, b: u32) -> (r: u32)
    ensures
        r == mul_bits(a, b),
{
    let x = rustc_apfloat::ieee::Single::from_bits(a as u128);
    let y = rustc_apfloat::ieee::Single::from_bits(b as u128);
    x.mul_r(y, rustc_apfloat::Round::NearestTiesToEven).value.to_bits() as u32
}

/// Relies on `rustc_apfloat::ieee::Single::div_r` with round-to-nearest-even,
/// the IEEE-754 single-precision division; a zero divisor yields an infinity
/// or a NaN bit pattern, never a panic. The result depends on the operand
/// bits alone.
#[verifier::external_body]
pub(crate) fn scalar_div(a: u32, b: u32) -> (r: u32)
    ensures
        r == div_bits(a, b),
{
    let x = rustc_apfloat::ieee::Single::from_bits(a as u128);
    let y = rustc_apfloat::ieee::Single::from_bits(b as u128);
    x.div_r(y, rustc_apfloat::Round::NearestTiesToEven).value.to_bits() as u32
}

/// Relies on `libm::powf`, the single-precision power function, and on
/// `bytemuck::cast` for the bit-preserving conversions; an ill-defined
/// base or exponent yields an infinity or NaN bit pattern, never a panic. The
/// result depends on the operand bits alone.
#[verifier::external_body]
pub(crate) fn scalar_pow(a: u32, b: u32) -> (r: u32)
    ensures
        r == pow_bits(a, b),
{
    libm::powf(bytemuck::cast(a), bytemuck::cast(b)).to_bits()
}

/// Relies on `libm::expf`, the single-precision exponential, and on
/// `bytemuck::cast` for the bit-preserving conversions; the result
/// depends on the operand bits alone.
#[verifier::external_body]
pub(crate) fn scalar_exp(a: u32) -> (r: u32)
    ensures
        r == exp_bits(a),
{
    libm::expf(bytemuck::cast(a)).to_bits()
}

/// Relies on `libm::logf`, the single-precision natural logarithm, and on
/// `bytemuck::cast` for the bit-preserving conversions; a
/// non-positive operand yields an infinity or NaN bit pattern, never a panic.
/// The result depends on the operand bits alone.
#[verifier::external_body]
pub(crate) fn scalar_ln(a: u32) -> (r: u32)
    ensures
        r == ln_bits(a),
{
    libm::logf(bytemuck::cast(a)).to_bits()
}

/// Relies on `libm::sinf`, the single-precision sine, and on `bytemuck::cast`
/// for the bit-preserving conversions; the result depends on
/// the operand bits alone.
#[verifier::external_body]
pub(crate) fn scalar_sin(a: u32) -> (r: u32)
    ensures
        r == sin_bits(a),
{
    libm::sinf(bytemuck::cast(a)).to_bits()
}

/// Relies on `libm::cosf`, the single-precision cosine, and on `bytemuck::cast`
/// for the bit-preserving conversions; the result depends on
/// the operand bits alone.
#[verifier::external_body]
pub(crate) fn scalar_cos(a: u32) -> (r: u32)
    ensures
        r == cos_bits(a),
{
    libm::cosf(bytemuck::cast(a)).to_bits()
}

/// Negation needs no outside help: it flips the sign bit.
pub(crate) fn scalar_neg(a: u32) -> (r: u32)
    ensures
        r == neg_bits(a),
{
    a ^ 0x8000_0000
}

} // verus!
