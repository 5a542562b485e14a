//! IEEE-754 binary32 arithmetic on bit patterns.
//!
//! The verified kernels carry single-precision values as their raw 32-bit
//! patterns. Each arithmetic step is a function of its argument bits alone,
//! so each gets a name (an uninterpreted spec function) and a trusted
//! wrapper that computes it with rustc_apfloat's software IEEE arithmetic
//! (round to nearest, ties to even, the default binary32 rounding).
use vstd::prelude::*;

use rustc_apfloat::Float;
use rustc_apfloat::Round;
use rustc_apfloat::ieee::Single;

verus! {

/// Bit pattern of +0.0.
pub const F32_ZERO_BITS: u32 = 0;

/// Bit pattern of 1.0.
pub const F32_ONE_BITS: u32 = 0x3F80_0000;

/// Bit pattern of 2.0.
pub const F32_TWO_BITS: u32 = 0x4000_0000;

/// The bit pattern of the binary32 sum of the two operand bit patterns.
pub uninterp spec fn f32_add_bits(a: u32, b: u32) -> u32;

/// The bit pattern of the binary32 difference of the two operand bit patterns.
pub uninterp spec fn f32_sub_bits(a: u32, b: u32) -> u32;

/// The bit pattern of the binary32 product of the two operand bit patterns.
pub uninterp spec fn f32_mul_bits(a: u32, b: u32) -> u32;

/// The binary32 value truncated toward zero and narrowed to 16 bits with
/// two's-complement wraparound (zero for NaN).
pub uninterp spec fn f32_trunc_i16(a: u32) -> i16;

/// The bit pattern of the exact binary32 representation of the 16-bit value.
pub uninterp spec fn f32_of_i16_bits(d: i16) -> u32;

/// Relies on rustc_apfloat's `Single::add_r`: IEEE binary32 addition of the
/// two operand bit patterns; `from_bits`/`to_bits` convert the representation.
#[verifier::external_body]
pub(crate) fn f32_add(a: u32, b: u32) -> (r: u32)
    ensures
        r == f32_add_bits(a, b),
{
    Single::from_bits(a as u128).add_r(
        Single::from_bits(b as u128),
        Round::NearestTiesToEven,
    ).value.to_bits() as u32
}

/// Relies on rustc_apfloat's `Single::sub_r`: IEEE binary32 subtraction of
/// the two operand bit patterns.
#[verifier::external_body]
pub(crate) fn f32_sub(a: u32, b: u32) -> (r: u32)
    ensures
        r == f32_sub_bits(a, b),
{
    Single::from_bits(a as u128).sub_r(
        Single::from_bits(b as u128),
        Round::NearestTiesToEven,
    ).value.to_bits() as u32
}

/// Relies on rustc_apfloat's `Single::mul_r`: IEEE binary32 multiplication
/// of the two operand bit patterns.
#[verifier::external_body]
pub(crate) fn f32_mul(a: u32, b: u32) -> (r: u32)
    ensures
        r == f32_mul_bits(a, b),
{
    Single::from_bits(a as u128).mul_r(
        Single::from_bits(b as u128),
        Round::NearestTiesToEven,
    ).value.to_bits() as u32
}

/// Relies on rustc_apfloat's `Single::to_i128`: truncation toward zero, zero
/// for NaN, the width's extreme value on overflow; the final cast keeps the
/// low 16 bits with two's-complement wraparound.
#[verifier::external_body]
pub(crate) fn f32_to_i16(a: u32) -> (r: i16)
    ensures
        r == f32_trunc_i16(a),
{
    Single::from_bits(a as u128).to_i128(128).value as i16
}

/// Relies on rustc_apfloat's `Single::from_i128`: conversion of a small
/// integer to binary32, exact for every 16-bit value.
#[verifier::external_body]
pub(crate) fn f32_from_i16(d: i16) -> (r: u32)
    ensures
        r == f32_of_i16_bits(d),
{
    Single::from_i128(d as i128).value.to_bits() as u32
}

} // verus!
