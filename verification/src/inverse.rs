//! Determinant and inverse of a square matrix, both built on the one
//! elimination routine of this crate, so that the three operations agree
//! exactly on every edge case.

use crate::arith::{div_fp, fp_div, fp_mul, fp_sub, mul_fp, sub_fp};
use crate::bits::{
    below_det_eps, below_det_eps_exec, is_nan_bits, is_nan_exec, MAX_EXACT_UINT,
    NAN_BITS, NEG_ONE_BITS, ONE_BITS, POS_ZERO,
};
use crate::lu::{lu_core, lu_spec, LuState};
use crate::matrix::{lemma_rm_bound, rm};
use vstd::prelude::*;

verus! {

/// The running product of the pivot diagonal, folded in ascending order,
/// seeded with the permutation sign as a signed one.
pub open spec fn det_prefix(st: LuState, n: int, k: int) -> u64
    decreases k,
{
    if k <= 0 {
        if st.sign == 1 {
            ONE_BITS
        } else {
            NEG_ONE_BITS
        }
    } else {
        mul_fp(det_prefix(st, n, k - 1), st.mat[rm(k - 1, k - 1, n)])
    }
}

/// The raw determinant: the signed product of the pivots of the
/// factorization.
pub open spec fn det_raw_spec(a: Seq<u64>, n: int) -> u64 {
    det_prefix(lu_spec(a, n, n), n, n)
}

/// The determinant with the noise snap: a magnitude strictly under ten to
/// the minus fifteenth is returned as exactly positive zero; everything
/// else (a NaN included) is returned unmodified.
pub open spec fn det_spec(a: Seq<u64>, n: int) -> u64 {
    if below_det_eps(det_raw_spec(a, n)) {
        POS_ZERO
    } else {
        det_raw_spec(a, n)
    }
}

/// A matrix is treated as singular when its raw determinant underflows the
/// snapping threshold (a zero pivot gives an exact zero product) or is a
/// NaN.
pub open spec fn singular_spec(a: Seq<u64>, n: int) -> bool {
    below_det_eps(det_raw_spec(a, n)) || is_nan_bits(det_raw_spec(a, n))
}

/// Entry `i` of the intermediate vector of the forward substitution for
/// unit column `c`: the permuted unit entry, minus each stored multiplier
/// times the earlier entries, folded in ascending order. The second index
/// counts the subtracted terms.
pub open spec fn fwd_y(lu: Seq<u64>, n: int, piv: Seq<int>, c: int, i: int, k: int) -> u64
    decreases i, k,
{
    if k <= 0 {
        if piv[i] == c {
            ONE_BITS
        } else {
            POS_ZERO
        }
    } else if k > i {
        POS_ZERO
    } else {
        sub_fp(
            fwd_y(lu, n, piv, c, i, k - 1),
            mul_fp(lu[rm(i, k - 1, n)], fwd_y(lu, n, piv, c, k - 1, k - 1)),
        )
    }
}

/// The accumulated value of the backward substitution for row `i`, after
/// the terms of columns strictly between `i` and `k` are subtracted in
/// ascending order.
pub open spec fn bwd_acc(lu: Seq<u64>, n: int, piv: Seq<int>, c: int, i: int, k: int) -> u64
    decreases n - i, k,
{
    if k <= i + 1 || i < 0 || k > n {
        fwd_y(lu, n, piv, c, i, i)
    } else {
        sub_fp(
            bwd_acc(lu, n, piv, c, i, k - 1),
            mul_fp(lu[rm(i, k - 1, n)], inv_x(lu, n, piv, c, k - 1)),
        )
    }
}

/// Entry `i` of the solution column `c`: the fully accumulated backward
/// value over the pivot diagonal entry.
pub open spec fn inv_x(lu: Seq<u64>, n: int, piv: Seq<int>, c: int, i: int) -> u64
    decreases n - i, n + 1,
{
    if i < 0 || i >= n {
        POS_ZERO
    } else {
        div_fp(bwd_acc(lu, n, piv, c, i, n), lu[rm(i, i, n)])
    }
}

/// The inverse: a full buffer of NaN sentinels for a singular matrix, else
/// the column-by-column solution of the factorized system against the
/// permuted identity columns.
pub open spec fn inverse_spec(a: Seq<u64>, n: int) -> Seq<u64> {
    if singular_spec(a, n) {
        Seq::new((n * n) as nat, |t: int| NAN_BITS)
    } else {
        let st = lu_spec(a, n, n);
        Seq::new((n * n) as nat, |t: int| inv_x(st.mat, n, st.piv, t % n, t / n))
    }
}

/// The determinant of a square matrix: the signed product of the pivots of
/// the factorization, with magnitudes under ten to the minus fifteenth
/// snapped to exactly positive zero.
pub fn detwasm(a: &Vec<u64>, n: usize) -> (r: u64)
    requires
        a.len() == n * n,
        n < MAX_EXACT_UINT,
    ensures
        r == det_spec(a@, n as int),
        below_det_eps(det_raw_spec(a@, n as int)) ==> r == POS_ZERO,
{
    let core = lu_core(a, n, n);
    let lu = core.0;
    let sign_pos = core.2;
    let mut acc: u64 = if sign_pos {
        ONE_BITS
    } else {
        NEG_ONE_BITS
    };
    let ghost st = lu_spec(a@, n as int, n as int);
    let mut k: usize = 0;
    while k < n
        invariant
            k <= n,
            n < MAX_EXACT_UINT,
            a.len() == n * n,
            lu@ == st.mat,
            lu@.len() == n * n,
            st == lu_spec(a@, n as int, n as int),
            acc == det_prefix(st, n as int, k as int),
        decreases n - k,
    {
        proof {
            lemma_rm_bound(k as int, k as int, n as int, n as int);
        }
        acc = fp_mul(acc, lu[k * n + k]);
        k = k + 1;
    }
    if below_det_eps_exec(acc) {
        return POS_ZERO;
    }
    acc
}

/// The inverse of a square matrix, solved column by column on the shared
/// factorization; a singular matrix (an underflowing or NaN determinant)
/// gives a full buffer of NaN sentinels rather than a partial result.
pub fn invwasm(a: &Vec<u64>, n: usize) -> (r: Vec<u64>)
    requires
        a.len() == n * n,
        n < MAX_EXACT_UINT,
    ensures
        r@ == inverse_spec(a@, n as int),
        r@.len() == n * n,
        singular_spec(a@, n as int) ==> r@ == Seq::new((n * n) as nat, |t: int| NAN_BITS),
{
    let core = lu_core(a, n, n);
    let lu = core.0;
    let piv = core.1;
    let sign_pos = core.2;
    let ghost st = lu_spec(a@, n as int, n as int);
    let mut acc: u64 = if sign_pos {
        ONE_BITS
    } else {
        NEG_ONE_BITS
    };
    let mut k: usize = 0;
    while k < n
        invariant
            k <= n,
            n < MAX_EXACT_UINT,
            a.len() == n * n,
            lu@ == st.mat,
            lu@.len() == n * n,
            st == lu_spec(a@, n as int, n as int),
            acc == det_prefix(st, n as int, k as int),
        decreases n - k,
    {
        proof {
            lemma_rm_bound(k as int, k as int, n as int, n as int);
        }
        acc = fp_mul(acc, lu[k * n + k]);
        k = k + 1;
    }
    let singular = below_det_eps_exec(acc) || is_nan_exec(acc);
    let mut out: Vec<u64> = Vec::new();
    if singular {
        let mut t: usize = 0;
        let total = n * n;
        while t < total
            invariant
                t <= total,
                out@ =~= Seq::new(t as nat, |t2: int| NAN_BITS),
            decreases total - t,
        {
            out.push(NAN_BITS);
            t = t + 1;
        }
        proof {
            assert(out@ =~= inverse_spec(a@, n as int));
        }
        return out;
    }
    let ghost pv = st.piv;
    let mut t: usize = 0;
    let total = n * n;
    while t < total
        invariant
            t <= total,
            total == n * n,
            out@ =~= Seq::new(t as nat, |t2: int| POS_ZERO),
        decreases total - t,
    {
        out.push(POS_ZERO);
        t = t + 1;
    }
    let mut c: usize = 0;
    proof {
        assert forall|t2: int|
            0 <= t2 < n * n implies out@[t2] == (if t2 % (n as int) < c {
                inv_x(st.mat, n as int, pv, t2 % (n as int), t2 / (n as int))
            } else {
                POS_ZERO
            }) by {
            if n > 0 {
                if n > 0 {
                    crate::lu::lemma_div_mod_pub(t2, n as int);
                }
            }
        }
    }
    while c < n
        invariant
            c <= n,
            n < MAX_EXACT_UINT,
            a.len() == n * n,
            lu@ == st.mat,
            lu@.len() == n * n,
            piv@.len() == n,
            piv@.map_values(|v: usize| v as int) == pv,
            pv == st.piv,
            st == lu_spec(a@, n as int, n as int),
            out@.len() == n * n,
            forall|t2: int|
                0 <= t2 < n * n ==> out@[t2] == (if t2 % (n as int) < c {
                    inv_x(st.mat, n as int, pv, t2 % (n as int), t2 / (n as int))
                } else {
                    POS_ZERO
                }),
        decreases n - c,
    {
        // forward substitution against the permuted unit column
        let mut y: Vec<u64> = Vec::new();
        let mut i: usize = 0;
        while i < n
            invariant
                i <= n,
                n < MAX_EXACT_UINT,
                a.len() == n * n,
                c < n,
                lu@ == st.mat,
                lu@.len() == n * n,
                piv@.len() == n,
                piv@.map_values(|v: usize| v as int) == pv,
                y@.len() == i,
                forall|i2: int|
                    0 <= i2 < i ==> y@[i2] == fwd_y(st.mat, n as int, pv, c as int, i2, i2),
            decreases n - i,
        {
            let base: u64 = if piv[i] == c {
                ONE_BITS
            } else {
                POS_ZERO
            };
            proof {
                assert(pv[i as int] == piv@[i as int] as int);
            }
            let mut acc2: u64 = base;
            let mut k2: usize = 0;
            while k2 < i
                invariant
                    k2 <= i,
                    i < n,
                    a.len() == n * n,
                    c < n,
                    lu@ == st.mat,
                    lu@.len() == n * n,
                    piv@.len() == n,
                    piv@.map_values(|v: usize| v as int) == pv,
                    y@.len() == i,
                    forall|i2: int|
                        0 <= i2 < i ==> y@[i2] == fwd_y(st.mat, n as int, pv, c as int, i2, i2),
                    acc2 == fwd_y(st.mat, n as int, pv, c as int, i as int, k2 as int),
                decreases i - k2,
            {
                proof {
                    lemma_rm_bound(i as int, k2 as int, n as int, n as int);
                }
                acc2 = fp_sub(acc2, fp_mul(lu[i * n + k2], y[k2]));
                k2 = k2 + 1;
            }
            y.push(acc2);
            i = i + 1;
        }
        // backward substitution
        let mut x: Vec<u64> = Vec::new();
        let mut t3: usize = 0;
        while t3 < n
            invariant
                t3 <= n,
                x@ =~= Seq::new(t3 as nat, |t4: int| POS_ZERO),
            decreases n - t3,
        {
            x.push(POS_ZERO);
            t3 = t3 + 1;
        }
        let mut ii: usize = n;
        while ii > 0
            invariant
                ii <= n,
                n < MAX_EXACT_UINT,
                a.len() == n * n,
                c < n,
                lu@ == st.mat,
                lu@.len() == n * n,
                y@.len() == n,
                x@.len() == n,
                forall|i2: int|
                    0 <= i2 < n ==> y@[i2] == fwd_y(st.mat, n as int, pv, c as int, i2, i2),
                forall|i2: int|
                    ii <= i2 < n ==> x@[i2] == inv_x(st.mat, n as int, pv, c as int, i2),
            decreases ii,
        {
            let i = ii - 1;
            let mut acc3: u64 = y[i];
            let mut k3: usize = i + 1;
            while k3 < n
                invariant
                    i < n,
                    i + 1 <= k3 <= n,
                    n < MAX_EXACT_UINT,
                    a.len() == n * n,
                    c < n,
                    lu@ == st.mat,
                    lu@.len() == n * n,
                    y@.len() == n,
                    x@.len() == n,
                    forall|i2: int|
                        0 <= i2 < n ==> y@[i2] == fwd_y(st.mat, n as int, pv, c as int, i2, i2),
                    forall|i2: int|
                        i < i2 < n ==> x@[i2] == inv_x(st.mat, n as int, pv, c as int, i2),
                    acc3 == bwd_acc(st.mat, n as int, pv, c as int, i as int, k3 as int),
                decreases n - k3,
            {
                proof {
                    lemma_rm_bound(i as int, k3 as int, n as int, n as int);
                }
                acc3 = fp_sub(acc3, fp_mul(lu[i * n + k3], x[k3]));
                k3 = k3 + 1;
            }
            proof {
                lemma_rm_bound(i as int, i as int, n as int, n as int);
            }
            let xv = fp_div(acc3, lu[i * n + i]);
            x.set(i, xv);
            ii = i;
        }
        // write the column
        let mut i4: usize = 0;
        proof {
            assert forall|t2: int|
                0 <= t2 < n * n implies out@[t2] == (if t2 % (n as int) < c || (t2 % (n as int)
                    == c && t2 / (n as int) < i4) {
                    inv_x(st.mat, n as int, pv, t2 % (n as int), t2 / (n as int))
                } else {
                    POS_ZERO
                }) by {
                if n > 0 {
                if n > 0 {
                    crate::lu::lemma_div_mod_pub(t2, n as int);
                }
            }
            }
        }
        while i4 < n
            invariant
                i4 <= n,
                n < MAX_EXACT_UINT,
                a.len() == n * n,
                c < n,
                x@.len() == n,
                out@.len() == n * n,
                forall|i2: int|
                    0 <= i2 < n ==> x@[i2] == inv_x(st.mat, n as int, pv, c as int, i2),
                forall|t2: int|
                    0 <= t2 < n * n ==> out@[t2] == (if t2 % (n as int) < c || (t2 % (n as int)
                        == c && t2 / (n as int) < i4) {
                        inv_x(st.mat, n as int, pv, t2 % (n as int), t2 / (n as int))
                    } else {
                        POS_ZERO
                    }),
            decreases n - i4,
        {
            proof {
                lemma_rm_bound(i4 as int, c as int, n as int, n as int);
            }
            let xv = x[i4];
            out.set(i4 * n + c, xv);
            i4 = i4 + 1;
            proof {
                assert forall|t2: int|
                    0 <= t2 < n * n implies out@[t2] == (if t2 % (n as int) < c || (t2 % (n as int)
                        == c && t2 / (n as int) < i4) {
                        inv_x(st.mat, n as int, pv, t2 % (n as int), t2 / (n as int))
                    } else {
                        POS_ZERO
                    }) by {
                    if n > 0 {
                if n > 0 {
                    crate::lu::lemma_div_mod_pub(t2, n as int);
                }
            }
                }
            }
        }
        proof {
            assert forall|t2: int|
                0 <= t2 < n * n implies out@[t2] == (if t2 % (n as int) < c + 1 {
                    inv_x(st.mat, n as int, pv, t2 % (n as int), t2 / (n as int))
                } else {
                    POS_ZERO
                }) by {
                if n > 0 {
                if n > 0 {
                    crate::lu::lemma_div_mod_pub(t2, n as int);
                }
            }
            }
        }
        c = c + 1;
    }
    proof {
        assert(!singular_spec(a@, n as int));
        assert forall|t2: int| 0 <= t2 < n * n implies out@[t2] == inverse_spec(a@, n as int)[t2]
            by {
            if n > 0 {
                if n > 0 {
                    crate::lu::lemma_div_mod_pub(t2, n as int);
                }
            }
        }
        assert(out@ =~= inverse_spec(a@, n as int));
    }
    out
}

} // verus!
