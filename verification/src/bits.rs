//! The bit-level model of IEEE 754 binary64 values.
//!
//! A double is carried throughout the crate as its 64-bit pattern. The
//! predicates here (NaN test, zero test, magnitude order) are the exact
//! bit-level meaning of the corresponding double operations: they involve no
//! rounding, so they are defined and verified in place rather than delegated.

use vstd::arithmetic::power2::{
    lemma2_to64, lemma2_to64_rest, lemma_pow2_strictly_increases, lemma_pow2_unfold, pow2,
};
use vstd::prelude::*;

verus! {

/// Mask of the sign bit of a binary64 pattern.
pub const SIGN_MASK: u64 = 0x8000_0000_0000_0000;

/// Mask of everything but the sign bit.
pub const ABS_MASK: u64 = 0x7FFF_FFFF_FFFF_FFFF;

/// Mask of the 11 exponent bits.
pub const EXP_MASK: u64 = 0x7FF0_0000_0000_0000;

/// Mask of the 52 fraction bits.
pub const FRAC_MASK: u64 = 0x000F_FFFF_FFFF_FFFF;

/// The quiet NaN pattern used as the sentinel for undefined results.
pub const NAN_BITS: u64 = 0x7FF8_0000_0000_0000;

/// The pattern of positive zero.
pub const POS_ZERO: u64 = 0x0000_0000_0000_0000;

/// The pattern of negative zero.
pub const NEG_ZERO: u64 = 0x8000_0000_0000_0000;

/// The implicit leading significand bit of a normal pattern: bit 52.
pub const IMPLICIT_BIT: u64 = 0x0010_0000_0000_0000;

/// The pattern of positive one.
pub const ONE_BITS: u64 = 0x3FF0_0000_0000_0000;

/// The pattern of negative one.
pub const NEG_ONE_BITS: u64 = 0xBFF0_0000_0000_0000;

/// The pattern of the determinant snapping threshold, ten to the minus
/// fifteenth.
pub const DET_EPS_BITS: u64 = 0x3CD2_03AF_9EE7_5616;

/// Largest integer count accepted where an exact binary64 encoding of a
/// length or index is needed: two to the fifty-third. Every integer below it
/// has an exact encoding.
pub const MAX_EXACT_UINT: u64 = 0x20_0000_0000_0000;

/// A pattern is a NaN when its exponent field is all ones and its fraction
/// field is not zero.
pub open spec fn is_nan_bits(x: u64) -> bool {
    x & EXP_MASK == EXP_MASK && x & FRAC_MASK != 0
}

/// A pattern is an infinity (of either sign) when its exponent field is all
/// ones and its fraction field is zero.
pub open spec fn is_inf_bits(x: u64) -> bool {
    x & EXP_MASK == EXP_MASK && x & FRAC_MASK == 0
}

/// A pattern is a zero (of either sign) exactly when everything but the sign
/// bit is clear; this is the bit-level meaning of `x == 0.0` on doubles,
/// which holds of both zeros and of nothing else.
pub open spec fn is_zero_bits(x: u64) -> bool {
    x & ABS_MASK == 0
}

/// The pattern of the absolute value: the sign bit cleared. This is the
/// bit-level meaning of `abs` on doubles, NaN included.
pub open spec fn abs_bits(x: u64) -> u64 {
    x & ABS_MASK
}

/// Strict order by magnitude, the bit-level meaning of `a.abs() > b.abs()`
/// on doubles: false whenever either operand is a NaN, and on the remaining
/// patterns the magnitude order coincides with the unsigned order of the
/// absolute-value patterns, because the binary64 encoding is monotone on
/// nonnegative values.
pub open spec fn gt_abs_bits(a: u64, b: u64) -> bool {
    !is_nan_bits(a) && !is_nan_bits(b) && abs_bits(a) > abs_bits(b)
}

/// Whether the magnitude of `x` lies strictly under the determinant snapping
/// threshold, the bit-level meaning of `x.abs() < 1.0e-15` on doubles: false
/// for a NaN.
pub open spec fn below_det_eps(x: u64) -> bool {
    !is_nan_bits(x) && abs_bits(x) < DET_EPS_BITS
}

/// Flip the sign of a nonzero sign value: the bit-level meaning of unary
/// minus on doubles.
pub open spec fn neg_bits(x: u64) -> u64 {
    x ^ SIGN_MASK
}

pub fn is_nan_exec(x: u64) -> (r: bool)
    ensures
        r == is_nan_bits(x),
{
    x & EXP_MASK == EXP_MASK && x & FRAC_MASK != 0
}

pub fn is_zero_exec(x: u64) -> (r: bool)
    ensures
        r == is_zero_bits(x),
{
    x & ABS_MASK == 0
}

pub fn gt_abs_exec(a: u64, b: u64) -> (r: bool)
    ensures
        r == gt_abs_bits(a, b),
{
    !is_nan_exec(a) && !is_nan_exec(b) && (a & ABS_MASK) > (b & ABS_MASK)
}

pub fn below_det_eps_exec(x: u64) -> (r: bool)
    ensures
        r == below_det_eps(x),
{
    !is_nan_exec(x) && (x & ABS_MASK) < DET_EPS_BITS
}

/// The classifying predicates evaluated on the named patterns of this
/// module.
pub proof fn lemma_bit_constant_facts()
    ensures
        !is_nan_bits(POS_ZERO),
        !is_nan_bits(NEG_ZERO),
        !is_inf_bits(POS_ZERO),
        !is_inf_bits(NEG_ZERO),
        is_zero_bits(POS_ZERO),
        is_zero_bits(NEG_ZERO),
        !is_nan_bits(ONE_BITS),
        !is_inf_bits(ONE_BITS),
        !is_zero_bits(ONE_BITS),
        !is_nan_bits(NEG_ONE_BITS),
        !is_inf_bits(NEG_ONE_BITS),
        !is_zero_bits(NEG_ONE_BITS),
        is_nan_bits(NAN_BITS),
        !is_zero_bits(NAN_BITS),
{
    assert(0u64 & 0x7FF0_0000_0000_0000 == 0 && 0u64 & 0x000F_FFFF_FFFF_FFFF == 0
        && 0u64 & 0x7FFF_FFFF_FFFF_FFFF == 0) by (bit_vector);
    assert(0x8000_0000_0000_0000u64 & 0x7FF0_0000_0000_0000 == 0
        && 0x8000_0000_0000_0000u64 & 0x7FFF_FFFF_FFFF_FFFF == 0) by (bit_vector);
    assert(0x3FF0_0000_0000_0000u64 & 0x7FF0_0000_0000_0000 == 0x3FF0_0000_0000_0000
        && 0x3FF0_0000_0000_0000u64 & 0x7FFF_FFFF_FFFF_FFFF != 0) by (bit_vector);
    assert(0xBFF0_0000_0000_0000u64 & 0x7FF0_0000_0000_0000 == 0x3FF0_0000_0000_0000
        && 0xBFF0_0000_0000_0000u64 & 0x7FFF_FFFF_FFFF_FFFF != 0) by (bit_vector);
    assert(0x7FF8_0000_0000_0000u64 & 0x7FF0_0000_0000_0000 == 0x7FF0_0000_0000_0000
        && 0x7FF8_0000_0000_0000u64 & 0x000F_FFFF_FFFF_FFFF != 0
        && 0x7FF8_0000_0000_0000u64 & 0x7FFF_FFFF_FFFF_FFFF != 0) by (bit_vector);
}

/// A zero pattern is one of the two zeros.
pub proof fn lemma_zero_bits_cases(x: u64)
    requires
        is_zero_bits(x),
    ensures
        x == POS_ZERO || x == NEG_ZERO,
{
    assert(x & 0x7FFF_FFFF_FFFF_FFFFu64 == 0 ==> x == 0 || x == 0x8000_0000_0000_0000u64)
        by (bit_vector);
}

/// The sign-masked value of any pattern is a zero pattern, and the
/// exclusive or of two zeros is a zero.
pub proof fn lemma_sign_mask_zero(x: u64)
    ensures
        is_zero_bits(x & SIGN_MASK),
{
    assert((x & 0x8000_0000_0000_0000u64) & 0x7FFF_FFFF_FFFF_FFFFu64 == 0) by (bit_vector);
}

/// Position of the most significant set bit; zero for inputs under two.
pub open spec fn msb_pos(n: u64) -> nat
    decreases n,
{
    if n < 2 {
        0
    } else {
        1 + msb_pos(n / 2)
    }
}

/// The exact binary64 encoding of a small nonnegative integer: positive
/// zero for zero, else the normal pattern whose unbiased exponent is the
/// most significant bit position and whose fraction holds the remaining
/// bits, left-aligned.
pub open spec fn fp_of_uint(n: u64) -> u64 {
    if n == 0 {
        POS_ZERO
    } else {
        let p: u64 = msb_pos(n) as u64;
        (((1023 + p) as u64) << 52) | ((n << ((52 - p) as u64)) & FRAC_MASK)
    }
}

pub(crate) proof fn lemma_msb_range(n: u64)
    requires
        1 <= n,
    ensures
        pow2(msb_pos(n)) <= n < pow2(msb_pos(n) + 1),
    decreases n,
{
    if n < 2 {
        lemma2_to64();
    } else {
        lemma_msb_range(n / 2);
        lemma_pow2_unfold(msb_pos(n / 2) + 1);
        lemma_pow2_unfold(msb_pos(n / 2) + 2);
        assert(pow2(msb_pos(n / 2) + 1) == 2 * pow2(msb_pos(n / 2)));
        assert(pow2(msb_pos(n / 2) + 2) == 2 * pow2(msb_pos(n / 2) + 1));
    }
}

pub(crate) proof fn lemma_msb_le_52(n: u64)
    requires
        1 <= n < MAX_EXACT_UINT,
    ensures
        msb_pos(n) <= 52,
{
    lemma_msb_range(n);
    if msb_pos(n) >= 53 {
        if msb_pos(n) > 53 {
            lemma_pow2_strictly_increases(53, msb_pos(n));
        }
        lemma2_to64_rest();
        assert(pow2(53) <= pow2(msb_pos(n)));
    }
}

/// The most significant bit position is pinned down by any power-of-two
/// bracket around the value.
pub(crate) proof fn lemma_msb_eq(n: u64, p: nat)
    requires
        pow2(p) <= n,
        n < pow2(p + 1),
    ensures
        msb_pos(n) == p,
{
    vstd::arithmetic::power2::lemma_pow2_pos(p);
    lemma_msb_range(n);
    let q = msb_pos(n);
    if q < p {
        if q + 1 < p {
            lemma_pow2_strictly_increases(q + 1, p);
        }
        assert(n < pow2(q + 1) && pow2(q + 1) <= pow2(p));
    } else if q > p {
        if p + 1 < q {
            lemma_pow2_strictly_increases(p + 1, q);
        }
        assert(pow2(q) <= n && pow2(p + 1) <= pow2(q));
    }
}

/// Encode a small nonnegative integer exactly as a binary64 pattern. Counts
/// and indices in this crate stay under two to the fifty-third, where the
/// encoding is exact.
pub fn uint_to_fp(n: u64) -> (r: u64)
    requires
        n < MAX_EXACT_UINT,
    ensures
        r == fp_of_uint(n),
        n >= 1 ==> !is_nan_bits(r) && !is_zero_bits(r) && r & SIGN_MASK == 0,
        n == 1 ==> r == ONE_BITS,
{
    if n == 0 {
        return POS_ZERO;
    }
    proof {
        lemma_msb_le_52(n);
    }
    let mut p: u64 = 0;
    let mut m: u64 = n;
    while m >= 2
        invariant
            1 <= m,
            msb_pos(n) == p + msb_pos(m),
            msb_pos(n) <= 52,
        decreases m,
    {
        assert(msb_pos(m) == 1 + msb_pos(m / 2));
        m = m / 2;
        p = p + 1;
    }
    assert(msb_pos(m) == 0);
    assert(p == msb_pos(n));
    let e: u64 = 1023 + p;
    let sh: u64 = 52 - p;
    let f: u64 = (n << sh) & FRAC_MASK;
    let r: u64 = (e << 52) | f;
    proof {
        assert(((n << sh) & 0x000F_FFFF_FFFF_FFFFu64) <= 0x000F_FFFF_FFFF_FFFFu64)
            by (bit_vector);
        assert(e >= 1023 && e <= 1075 && f <= 0x000F_FFFF_FFFF_FFFFu64 ==> {
            &&& ((e << 52) | f) & 0x7FF0_0000_0000_0000u64 != 0x7FF0_0000_0000_0000u64
            &&& ((e << 52) | f) & 0x7FFF_FFFF_FFFF_FFFFu64 != 0
            &&& ((e << 52) | f) & 0x8000_0000_0000_0000u64 == 0
        }) by (bit_vector);
        if n == 1 {
            assert((1023u64 << 52) | ((1u64 << 52) & 0x000F_FFFF_FFFF_FFFFu64)
                == 0x3FF0_0000_0000_0000u64) by (bit_vector);
            assert(e == 1023 && f == ((1u64 << 52) & 0x000F_FFFF_FFFF_FFFFu64));
        }
    }
    r
}

} // verus!
