//! The four rounding operations on binary64 patterns, delegated to a
//! software floating-point library.
//!
//! Each operation rounds its exact result to the nearest representable
//! value, ties to even; no short formula gives the rounded pattern, so each
//! result is named by an uninterpreted function of the operands alone. The
//! clauses beside each name are the exact (unrounded) special cases of the
//! IEEE 754 operation that the proofs in this crate lean on; every one of
//! them is a case the library computes without rounding.

use crate::bits::{
    is_inf_bits, is_nan_bits, is_zero_bits, ONE_BITS, POS_ZERO, SIGN_MASK,
};
use rustc_apfloat::Float;
use vstd::prelude::*;

verus! {

pub uninterp spec fn add_fp(a: u64, b: u64) -> u64;

pub uninterp spec fn sub_fp(a: u64, b: u64) -> u64;

pub uninterp spec fn mul_fp(a: u64, b: u64) -> u64;

pub uninterp spec fn div_fp(a: u64, b: u64) -> u64;

/// Relies on rustc_apfloat's binary64 addition (`Float::add_r`, ties to
/// even): the sum depends on the operands alone; adding positive zero on
/// either side returns the other operand unchanged, except that the sum of
/// two zeros of unlike sign is positive zero.
#[verifier::external_body]
pub(crate) fn fp_add(a: u64, b: u64) -> (r: u64)
    ensures
        r == add_fp(a, b),
        a == POS_ZERO && !is_nan_bits(b) && b != SIGN_MASK ==> r == b,
        a == POS_ZERO && b == SIGN_MASK ==> r == POS_ZERO,
        b == POS_ZERO && !is_nan_bits(a) && a != SIGN_MASK ==> r == a,
        a == SIGN_MASK && b == POS_ZERO ==> r == POS_ZERO,
{
    let x = rustc_apfloat::ieee::Double::from_bits(a as u128);
    let y = rustc_apfloat::ieee::Double::from_bits(b as u128);
    x.add_r(y, rustc_apfloat::Round::NearestTiesToEven).value.to_bits() as u64
}

/// Relies on rustc_apfloat's binary64 subtraction (`Float::sub_r`, ties to
/// even): the difference depends on the operands alone; subtracting positive
/// zero returns the left operand unchanged, and the difference of a finite
/// value with itself is positive zero.
#[verifier::external_body]
pub(crate) fn fp_sub(a: u64, b: u64) -> (r: u64)
    ensures
        r == sub_fp(a, b),
        b == POS_ZERO && !is_nan_bits(a) ==> r == a,
        a == b && !is_nan_bits(a) && !is_inf_bits(a) ==> r == POS_ZERO,
{
    let x = rustc_apfloat::ieee::Double::from_bits(a as u128);
    let y = rustc_apfloat::ieee::Double::from_bits(b as u128);
    x.sub_r(y, rustc_apfloat::Round::NearestTiesToEven).value.to_bits() as u64
}

/// Relies on rustc_apfloat's binary64 multiplication (`Float::mul_r`, ties
/// to even): the product depends on the operands alone; the product of a
/// zero with any finite value is the zero whose sign is the exclusive or of
/// their signs.
#[verifier::external_body]
pub(crate) fn fp_mul(a: u64, b: u64) -> (r: u64)
    ensures
        r == mul_fp(a, b),
        (is_zero_bits(a) || is_zero_bits(b)) && !is_nan_bits(a) && !is_nan_bits(b)
            && !is_inf_bits(a) && !is_inf_bits(b) ==> r == (a ^ b) & SIGN_MASK,
{
    let x = rustc_apfloat::ieee::Double::from_bits(a as u128);
    let y = rustc_apfloat::ieee::Double::from_bits(b as u128);
    x.mul_r(y, rustc_apfloat::Round::NearestTiesToEven).value.to_bits() as u64
}

/// Relies on rustc_apfloat's binary64 division (`Float::div_r`, ties to
/// even): the quotient depends on the operands alone; dividing by positive
/// one returns the dividend unchanged, and a zero divided by a positive
/// non-NaN value keeps its sign.
#[verifier::external_body]
pub(crate) fn fp_div(a: u64, b: u64) -> (r: u64)
    ensures
        r == div_fp(a, b),
        b == ONE_BITS && !is_nan_bits(a) ==> r == a,
        is_zero_bits(a) && !is_nan_bits(b) && !is_zero_bits(b) && b & SIGN_MASK == 0 ==> r == a,
{
    let x = rustc_apfloat::ieee::Double::from_bits(a as u128);
    let y = rustc_apfloat::ieee::Double::from_bits(b as u128);
    x.div_r(y, rustc_apfloat::Round::NearestTiesToEven).value.to_bits() as u64
}

} // verus!
