//! Descriptive statistics over a flat buffer of binary64 patterns: mean,
//! variance, standard deviation and z-scores, all sharing one numerically
//! stable single-pass accumulation (Welford's method).

use crate::arith::{add_fp, div_fp, fp_add, fp_div, fp_mul, fp_sub, mul_fp, sub_fp};
use crate::bits::{
    fp_of_uint, is_inf_bits, is_nan_bits, is_zero_bits, is_zero_exec,
    lemma_bit_constant_facts, lemma_sign_mask_zero, lemma_zero_bits_cases, uint_to_fp,
    MAX_EXACT_UINT, NAN_BITS, NEG_ZERO, ONE_BITS, POS_ZERO, SIGN_MASK,
};
use crate::sqrt::{sqrt_bits, sqrt_fp};
use vstd::prelude::*;

verus! {

/// The state of Welford's accumulation over a sequence: running mean and
/// running sum of squared deviations, both starting at positive zero. For
/// the element at one-based position `i`, `delta` is the element minus the
/// old mean, the mean moves by `delta` over `i`, and the sum grows by
/// `delta` times the element minus the new mean.
pub open spec fn welford(s: Seq<u64>) -> (u64, u64)
    decreases s.len(),
{
    if s.len() == 0 {
        (POS_ZERO, POS_ZERO)
    } else {
        let prev = welford(s.drop_last());
        let x = s.last();
        let delta = sub_fp(x, prev.0);
        let mean1 = add_fp(prev.0, div_fp(delta, fp_of_uint(s.len() as u64)));
        let delta2 = sub_fp(x, mean1);
        (mean1, add_fp(prev.1, mul_fp(delta, delta2)))
    }
}

/// The mean: the Welford running mean, with the NaN sentinel on an empty
/// sequence.
pub open spec fn mean_spec(s: Seq<u64>) -> u64 {
    if s.len() == 0 {
        NAN_BITS
    } else {
        welford(s).0
    }
}

/// The variance under normalization `flag` (zero: population, one: sample):
/// the NaN sentinel on an empty sequence; on one element, zero for the
/// population form and the NaN sentinel for the sample form; else the
/// Welford sum of squared deviations over the length minus the flag.
pub open spec fn variance_spec(s: Seq<u64>, flag: u8) -> u64 {
    if s.len() == 0 {
        NAN_BITS
    } else if s.len() == 1 {
        if flag == 1 {
            NAN_BITS
        } else {
            POS_ZERO
        }
    } else {
        div_fp(welford(s).1, fp_of_uint((s.len() - flag as nat) as u64))
    }
}

/// The standard deviation: the square root of the variance, with the same
/// degenerate cases returned without taking a root.
pub open spec fn std_spec(s: Seq<u64>, flag: u8) -> u64 {
    if s.len() <= 1 {
        variance_spec(s, flag)
    } else {
        sqrt_fp(variance_spec(s, flag))
    }
}

/// The z-scores: empty for an empty sequence, a single zero for one
/// element, all zeros when the standard deviation is a zero, and otherwise
/// each element minus the mean, over the standard deviation.
pub open spec fn zscore_spec(s: Seq<u64>, flag: u8) -> Seq<u64> {
    if s.len() == 0 {
        Seq::empty()
    } else if s.len() == 1 {
        seq![POS_ZERO]
    } else {
        let m = welford(s).0;
        let sd = std_spec(s, flag);
        if is_zero_bits(sd) {
            Seq::new(s.len(), |i: int| POS_ZERO)
        } else {
            Seq::new(s.len(), |i: int| div_fp(sub_fp(s[i], m), sd))
        }
    }
}

/// All elements of the sequence equal its first one.
pub open spec fn constant_seq(s: Seq<u64>) -> bool {
    forall|j: int| 0 <= j < s.len() ==> #[trigger] s[j] == s[0]
}

/// Welford's accumulation, one pass. The last two clauses are the laws the
/// degenerate statistics rest on: a single non-NaN element is its own mean
/// (positive zero for a negative zero input), and a constant finite
/// sequence leaves the mean at that constant and the squared-deviation sum
/// at exactly positive zero.
fn welford_exec(arr: &Vec<u64>) -> (r: (u64, u64))
    requires
        arr.len() < MAX_EXACT_UINT,
    ensures
        r == welford(arr@),
        arr@.len() == 1 && !is_nan_bits(arr@[0]) ==> r.0 == (if arr@[0] == NEG_ZERO {
            POS_ZERO
        } else {
            arr@[0]
        }),
        arr@.len() >= 1 && constant_seq(arr@) && !is_nan_bits(arr@[0]) && !is_inf_bits(arr@[0])
            ==> r.0 == (if arr@[0] == NEG_ZERO {
            POS_ZERO
        } else {
            arr@[0]
        }) && r.1 == POS_ZERO,
{
    let ghost c: u64 = if arr.len() > 0 {
        arr@[0]
    } else {
        POS_ZERO
    };
    let mut mean0: u64 = POS_ZERO;
    let mut m2: u64 = POS_ZERO;
    let mut i: usize = 0;
    while i < arr.len()
        invariant
            i <= arr.len(),
            arr.len() < MAX_EXACT_UINT,
            (mean0, m2) == welford(arr@.take(i as int)),
            c == (if arr@.len() > 0 {
                arr@[0]
            } else {
                POS_ZERO
            }),
            i == 1 && !is_nan_bits(c) ==> mean0 == (if c == NEG_ZERO {
                POS_ZERO
            } else {
                c
            }),
            i >= 1 && constant_seq(arr@.take(i as int)) && !is_nan_bits(c) && !is_inf_bits(c)
                ==> mean0 == (if c == NEG_ZERO {
                POS_ZERO
            } else {
                c
            }) && m2 == POS_ZERO,
        decreases arr.len() - i,
    {
        let mean_prev = mean0;
        let m2_prev = m2;
        let x = arr[i];
        let delta = fp_sub(x, mean0);
        let nb = uint_to_fp((i + 1) as u64);
        let q = fp_div(delta, nb);
        mean0 = fp_add(mean_prev, q);
        let delta2 = fp_sub(x, mean0);
        let prod = fp_mul(delta, delta2);
        m2 = fp_add(m2_prev, prod);
        i = i + 1;
        proof {
            lemma_bit_constant_facts();
            let s = arr@.take(i as int);
            assert(s.drop_last() =~= arr@.take(i as int - 1));
            assert(s.last() == arr@[i as int - 1]);
            assert((mean0, m2) == welford(s));
            if i == 1 && !is_nan_bits(c) {
                assert(x == c);
                assert(mean_prev == POS_ZERO && m2_prev == POS_ZERO);
                assert(delta == c);
                assert(nb == ONE_BITS);
                assert(q == c);
            }
            if i >= 1 && constant_seq(s) && !is_nan_bits(c) && !is_inf_bits(c) {
                assert(x == s[i as int - 1] && x == c);
                if i == 1 {
                    assert(mean_prev == POS_ZERO && m2_prev == POS_ZERO);
                    assert(delta == c && q == c);
                    if c == NEG_ZERO {
                        assert(mean0 == POS_ZERO);
                        assert(delta2 == NEG_ZERO);
                    } else {
                        assert(mean0 == c);
                        assert(delta2 == POS_ZERO);
                    }
                    assert(is_zero_bits(delta2));
                    assert(prod == (delta ^ delta2) & SIGN_MASK);
                    lemma_sign_mask_zero(delta ^ delta2);
                    lemma_zero_bits_cases(prod);
                    assert(m2 == POS_ZERO);
                } else {
                    assert(constant_seq(s.drop_last()));
                    assert(constant_seq(arr@.take(i as int - 1)));
                    if c == NEG_ZERO {
                        assert(mean_prev == POS_ZERO && m2_prev == POS_ZERO);
                        assert(delta == NEG_ZERO && q == NEG_ZERO);
                        assert(mean0 == POS_ZERO);
                        assert(delta2 == NEG_ZERO);
                    } else {
                        assert(mean_prev == c && m2_prev == POS_ZERO);
                        assert(delta == POS_ZERO && q == POS_ZERO);
                        assert(mean0 == c);
                        assert(delta2 == POS_ZERO);
                    }
                    assert(prod == (delta ^ delta2) & SIGN_MASK);
                    lemma_sign_mask_zero(delta ^ delta2);
                    lemma_zero_bits_cases(prod);
                    assert(m2 == POS_ZERO);
                }
            }
        }
    }
    proof {
        assert(arr@.take(arr.len() as int) =~= arr@);
    }
    (mean0, m2)
}

/// The arithmetic mean of the buffer; the NaN sentinel on an empty buffer,
/// and a single non-NaN element is returned as the mean itself (positive
/// zero for a negative zero element).
pub fn meanwasm(arr: &Vec<u64>) -> (r: u64)
    requires
        arr.len() < MAX_EXACT_UINT,
    ensures
        r == mean_spec(arr@),
        arr@.len() == 0 ==> r == NAN_BITS,
        arr@.len() == 1 && !is_nan_bits(arr@[0]) && arr@[0] != NEG_ZERO ==> r == arr@[0],
        arr@.len() == 1 && arr@[0] == NEG_ZERO ==> r == POS_ZERO,
{
    if arr.len() == 0 {
        return NAN_BITS;
    }
    proof {
        lemma_bit_constant_facts();
    }
    let r = welford_exec(arr);
    r.0
}

/// The variance of the buffer under normalization `flag`: the NaN sentinel
/// on an empty buffer; on one element, zero for the population form and the
/// NaN sentinel for the sample form.
pub fn variancewasm(arr: &Vec<u64>, flag: u8) -> (r: u64)
    requires
        arr.len() < MAX_EXACT_UINT,
        flag <= 1,
    ensures
        r == variance_spec(arr@, flag),
        arr@.len() == 0 ==> r == NAN_BITS,
        arr@.len() == 1 && flag == 0 ==> r == POS_ZERO,
        arr@.len() == 1 && flag == 1 ==> r == NAN_BITS,
{
    if arr.len() == 0 {
        return NAN_BITS;
    }
    if arr.len() == 1 {
        if flag == 1 {
            return NAN_BITS;
        }
        return POS_ZERO;
    }
    let r = welford_exec(arr);
    let nb = uint_to_fp((arr.len() - flag as usize) as u64);
    fp_div(r.1, nb)
}

/// The standard deviation of the buffer under normalization `flag`: the
/// square root of the variance, with the degenerate cases of the variance
/// returned unrooted.
pub fn stdwasm(arr: &Vec<u64>, flag: u8) -> (r: u64)
    requires
        arr.len() < MAX_EXACT_UINT,
        flag <= 1,
    ensures
        r == std_spec(arr@, flag),
{
    if arr.len() == 0 {
        return NAN_BITS;
    }
    if arr.len() == 1 {
        if flag == 1 {
            return NAN_BITS;
        }
        return POS_ZERO;
    }
    let v = variancewasm(arr, flag);
    sqrt_bits(v)
}

/// The z-scores of the buffer under normalization `flag`: empty stays
/// empty, one element gives a single zero, and a constant finite buffer
/// gives all zeros, because its squared-deviation sum is exactly zero.
pub fn zscorewasm(arr: &Vec<u64>, flag: u8) -> (r: Vec<u64>)
    requires
        arr.len() < MAX_EXACT_UINT,
        flag <= 1,
    ensures
        r@ == zscore_spec(arr@, flag),
        arr@.len() == 0 ==> r@ == Seq::<u64>::empty(),
        arr@.len() == 1 ==> r@ == seq![POS_ZERO],
        arr@.len() >= 1 && constant_seq(arr@) && !is_nan_bits(arr@[0]) && !is_inf_bits(arr@[0])
            ==> r@ == Seq::new(arr@.len(), |i: int| POS_ZERO),
{
    if arr.len() == 0 {
        let out: Vec<u64> = Vec::new();
        assert(out@ =~= zscore_spec(arr@, flag));
        return out;
    }
    if arr.len() == 1 {
        let mut out: Vec<u64> = Vec::new();
        out.push(POS_ZERO);
        assert(out@ =~= zscore_spec(arr@, flag));
        assert(out@ =~= Seq::new(arr@.len(), |i: int| POS_ZERO));
        return out;
    }
    let w = welford_exec(arr);
    let m = w.0;
    let nb = uint_to_fp((arr.len() - flag as usize) as u64);
    let v = fp_div(w.1, nb);
    let sd = sqrt_bits(v);
    proof {
        lemma_bit_constant_facts();
        if constant_seq(arr@) && !is_nan_bits(arr@[0]) && !is_inf_bits(arr@[0]) {
            assert(w.1 == POS_ZERO);
            assert(v == POS_ZERO);
            assert(sqrt_fp(POS_ZERO) == POS_ZERO);
        }
    }
    let n = arr.len();
    let mut out: Vec<u64> = Vec::new();
    if is_zero_exec(sd) {
        let mut i: usize = 0;
        while i < n
            invariant
                i <= n,
                out@ =~= Seq::new(i as nat, |j: int| POS_ZERO),
            decreases n - i,
        {
            out.push(POS_ZERO);
            i = i + 1;
        }
        assert(out@ =~= Seq::new(arr@.len(), |j: int| POS_ZERO));
    } else {
        let mut i: usize = 0;
        while i < n
            invariant
                i <= n,
                n == arr.len(),
                out@ =~= Seq::new(i as nat, |j: int| div_fp(sub_fp(arr@[j], m), sd)),
            decreases n - i,
        {
            let d = fp_sub(arr[i], m);
            let z = fp_div(d, sd);
            out.push(z);
            i = i + 1;
            assert(out@ =~= Seq::new(i as nat, |j: int| div_fp(sub_fp(arr@[j], m), sd)));
        }
    }
    out
}

} // verus!
