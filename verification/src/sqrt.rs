//! Square root of a binary64 pattern, computed and verified entirely in
//! integer arithmetic.
//!
//! For a positive finite input the significand is normalized, the exponent
//! is made even, and the integer square root of the scaled significand gives
//! one guard bit beyond the 53 result bits. The guard bit decides the
//! rounding to nearest: a tie would need the scaled significand to be an odd
//! perfect square with 54 trailing zero bits, which cannot happen, so ties
//! never arise. NaNs and negative nonzero inputs give the canonical quiet
//! NaN; zeros of either sign and positive infinity are returned unchanged.

use crate::bits::{
    is_inf_bits, is_nan_bits, is_zero_bits, lemma_msb_eq, lemma_msb_le_52, msb_pos,
    ABS_MASK, EXP_MASK, FRAC_MASK, IMPLICIT_BIT, NAN_BITS, SIGN_MASK,
};
use vstd::arithmetic::power2::{
    lemma2_to64, lemma2_to64_rest, lemma_pow2_strictly_increases, lemma_pow2_unfold, pow2,
};
use vstd::prelude::*;

verus! {

/// `r` is the integer square root of `s`: the greatest integer whose square
/// does not exceed `s`.
pub open spec fn is_isqrt(s: int, r: int) -> bool {
    &&& 0 <= r
    &&& r * r <= s
    &&& (r + 1) * (r + 1) > s
}

/// The integer square root, as a recursive definition.
pub open spec fn isqrt_rec(s: nat) -> nat
    decreases s,
{
    if s == 0 {
        0
    } else {
        let p = isqrt_rec((s - 1) as nat);
        if (p + 1) * (p + 1) <= s {
            p + 1
        } else {
            p
        }
    }
}

proof fn lemma_isqrt_rec(s: nat)
    ensures
        is_isqrt(s as int, isqrt_rec(s) as int),
    decreases s,
{
    if s == 0 {
        assert(is_isqrt(0, 0));
    } else {
        lemma_isqrt_rec((s - 1) as nat);
        let p = isqrt_rec((s - 1) as nat) as int;
        if (p + 1) * (p + 1) <= s {
            assert((p + 2) * (p + 2) > s as int) by (nonlinear_arith)
                requires
                    0 <= p,
                    (p + 1) * (p + 1) > s as int - 1,
            ;
        }
    }
}

proof fn lemma_isqrt_unique(s: int, a: int, b: int)
    requires
        is_isqrt(s, a),
        is_isqrt(s, b),
    ensures
        a == b,
{
    assert(a == b) by (nonlinear_arith)
        requires
            0 <= a,
            0 <= b,
            a * a <= s,
            (a + 1) * (a + 1) > s,
            b * b <= s,
            (b + 1) * (b + 1) > s,
    ;
}

/// Integer square root by bisection.
fn isqrt_u128(s: u128) -> (r: u128)
    requires
        s < 0x1000_0000_0000_0000_0000_0000_0000u128,
    ensures
        r as nat == isqrt_rec(s as nat),
        is_isqrt(s as int, r as int),
{
    let mut lo: u128 = 0;
    let mut hi: u128 = 0x40_0000_0000_0000;
    proof {
        assert((0x40_0000_0000_0000u128 as int) * (0x40_0000_0000_0000u128 as int)
            == (0x1000_0000_0000_0000_0000_0000_0000u128 as int)) by (nonlinear_arith);
    }
    while hi - lo > 1
        invariant
            lo < hi <= 0x40_0000_0000_0000u128,
            (lo as int) * (lo as int) <= s as int,
            (hi as int) * (hi as int) > s as int,
        decreases hi - lo,
    {
        let mid: u128 = lo + (hi - lo) / 2;
        proof {
            assert((mid as int) * (mid as int)
                <= (0x40_0000_0000_0000u128 as int) * (0x40_0000_0000_0000u128 as int))
                by (nonlinear_arith)
                requires
                    0 <= mid as int <= 0x40_0000_0000_0000u128 as int,
            ;
        }
        if mid * mid <= s {
            lo = mid;
        } else {
            hi = mid;
        }
    }
    proof {
        lemma_isqrt_rec(s as nat);
        lemma_isqrt_unique(s as int, lo as int, isqrt_rec(s as nat) as int);
    }
    lo
}

/// The rounded square root of a positive finite nonzero pattern.
///
/// The value of `x` is `s0 * 2^(e0 - 1075)` with `e0` the exponent field
/// clamped up to one. The significand is scaled to make the exponent even
/// and to put 54 bits above the binary point of the root; the integer root
/// `q` then carries the 53 result bits and one guard bit, and rounding to
/// nearest adds the guard bit back (ties cannot arise). The biased working
/// exponent `eb` keeps every quantity nonnegative.
pub open spec fn sqrt_pos_fp(x: u64) -> u64 {
    let ef: u64 = (x & EXP_MASK) / IMPLICIT_BIT;
    let s0: u64 = if ef > 0 {
        (x & FRAC_MASK) | IMPLICIT_BIT
    } else {
        x & FRAC_MASK
    };
    let k: nat = (52 - msb_pos(s0)) as nat;
    let s1: u64 = ((s0 as nat) * pow2(k)) as u64;
    let efn: u64 = if ef > 0 {
        ef
    } else {
        1
    };
    let eb1: u64 = ((efn + 125 - k) as u64);
    let s2: u64 = if eb1 % 2 == 1 {
        (2 * s1) as u64
    } else {
        s1
    };
    let eb2: u64 = if eb1 % 2 == 1 {
        (eb1 - 1) as u64
    } else {
        eb1
    };
    let q: nat = isqrt_rec((s2 as nat) * pow2(54));
    let rs: nat = q / 2 + q % 2;
    let sf: u64 = if rs == pow2(53) {
        IMPLICIT_BIT
    } else {
        rs as u64
    };
    let ef2: u64 = if rs == pow2(53) {
        (eb2 / 2 + 450) as u64
    } else {
        (eb2 / 2 + 449) as u64
    };
    (ef2 * IMPLICIT_BIT + (sf & FRAC_MASK)) as u64
}

/// The square root of any binary64 pattern: the sentinel quiet NaN for a
/// NaN or a negative nonzero input, the input itself for a zero of either
/// sign or positive infinity, and the rounded root otherwise.
pub open spec fn sqrt_fp(x: u64) -> u64 {
    if is_nan_bits(x) {
        NAN_BITS
    } else if is_zero_bits(x) {
        x
    } else if x & SIGN_MASK != 0 {
        NAN_BITS
    } else if is_inf_bits(x) {
        x
    } else {
        sqrt_pos_fp(x)
    }
}

/// Square root on patterns, rounded to nearest.
pub fn sqrt_bits(x: u64) -> (r: u64)
    ensures
        r == sqrt_fp(x),
{
    if x & EXP_MASK == EXP_MASK && x & FRAC_MASK != 0 {
        return NAN_BITS;
    }
    if x & ABS_MASK == 0 {
        return x;
    }
    if x & SIGN_MASK != 0 {
        return NAN_BITS;
    }
    if x & EXP_MASK == EXP_MASK {
        return x;
    }
    let ef: u64 = (x & EXP_MASK) / IMPLICIT_BIT;
    let s0: u64 = if ef > 0 {
        (x & FRAC_MASK) | IMPLICIT_BIT
    } else {
        x & FRAC_MASK
    };
    proof {
        assert(x & FRAC_MASK <= FRAC_MASK && (x & EXP_MASK) / IMPLICIT_BIT <= 2047u64
            && ((x & FRAC_MASK) | IMPLICIT_BIT) >= IMPLICIT_BIT
            && ((x & FRAC_MASK) | IMPLICIT_BIT) <= FRAC_MASK + IMPLICIT_BIT) by (bit_vector);
        assert((x & 0x7FFF_FFFF_FFFF_FFFFu64 != 0 && x & 0x7FF0_0000_0000_0000u64 == 0)
            ==> x & 0x000F_FFFF_FFFF_FFFFu64 != 0) by (bit_vector);
        assert((x & 0x7FF0_0000_0000_0000u64) / 0x0010_0000_0000_0000u64 == 0
            ==> x & 0x7FF0_0000_0000_0000u64 == 0) by (bit_vector);
        lemma_msb_le_52(s0);
        lemma2_to64();
        lemma2_to64_rest();
    }
    let mut s1: u64 = s0;
    let mut k: u64 = 0;
    while s1 < IMPLICIT_BIT
        invariant
            1 <= s1 < 0x20_0000_0000_0000u64,
            s1 as nat == (s0 as nat) * pow2(k as nat),
            msb_pos(s1) == msb_pos(s0) + k,
            pow2(k as nat) <= s1 as nat,
        decreases 0x20_0000_0000_0000 - s1 as int,
    {
        proof {
            if k >= 53 {
                if k > 53 {
                    lemma_pow2_strictly_increases(53, k as nat);
                }
                lemma2_to64_rest();
                assert(false);
            }
            lemma_pow2_unfold(k as nat + 1);
            assert((s0 as nat) * pow2(k as nat + 1) == 2 * ((s0 as nat) * pow2(k as nat)))
                by (nonlinear_arith)
                requires
                    pow2(k as nat + 1) == 2 * pow2(k as nat),
            ;
            assert(((2 * s1) as u64) / 2 == s1);
            assert(msb_pos((2 * s1) as u64) == 1 + msb_pos(s1));
        }
        s1 = s1 * 2;
        k = k + 1;
    }
    proof {
        lemma2_to64_rest();
        assert(pow2(52) <= s1 as nat && (s1 as nat) < pow2(53));
        lemma_msb_eq(s1, 52);
        assert(k == 52 - msb_pos(s0));
        assert(s1 == ((s0 as nat) * pow2((52 - msb_pos(s0)) as nat)) as u64);
    }
    let efn: u64 = if ef > 0 {
        ef
    } else {
        1
    };
    let eb1: u64 = efn + 125 - k;
    let odd: bool = eb1 % 2 == 1;
    let s2: u64 = if odd {
        2 * s1
    } else {
        s1
    };
    let eb2: u64 = if odd {
        eb1 - 1
    } else {
        eb1
    };
    let s128: u128 = (s2 as u128) * 0x40_0000_0000_0000;
    proof {
        assert((s2 as int) * (0x40_0000_0000_0000u128 as int) < (
        0x1000_0000_0000_0000_0000_0000_0000u128 as int)) by (nonlinear_arith)
            requires
                (s2 as int) < (0x40_0000_0000_0000u128 as int),
        ;
        lemma2_to64_rest();
        assert(pow2(54) == 0x40_0000_0000_0000);
    }
    let q: u128 = isqrt_u128(s128);
    proof {
        assert((q as int) < 0x40_0000_0000_0000) by (nonlinear_arith)
            requires
                (q as int) * (q as int) <= s128 as int,
                (s128 as int) < 0x1000_0000_0000_0000_0000_0000_0000,
                0 <= q as int,
        ;
    }
    let rs: u128 = q / 2 + q % 2;
    let two_53: u64 = 0x20_0000_0000_0000;
    let sf: u64 = if rs == two_53 as u128 {
        IMPLICIT_BIT
    } else {
        rs as u64
    };
    let ef2: u64 = if rs == two_53 as u128 {
        eb2 / 2 + 450
    } else {
        eb2 / 2 + 449
    };
    proof {
        assert(pow2(53) == 0x20_0000_0000_0000);
        assert(rs as nat == isqrt_rec((s2 as nat) * pow2(54)) / 2 + isqrt_rec(
            (s2 as nat) * pow2(54),
        ) % 2);
    }
    proof {
        assert((x & 0x7FF0_0000_0000_0000u64) / 0x0010_0000_0000_0000u64 <= 2046
            || x & 0x7FF0_0000_0000_0000u64 == 0x7FF0_0000_0000_0000u64) by (bit_vector);
        assert(sf & 0x000F_FFFF_FFFF_FFFFu64 <= 0x000F_FFFF_FFFF_FFFFu64) by (bit_vector);
    }
    ef2 * IMPLICIT_BIT + (sf & FRAC_MASK)
}

} // verus!
