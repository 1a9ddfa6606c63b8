//! LU factorization with partial pivoting (Doolittle form), on a working
//! copy of a row-major matrix.
//!
//! For each pivot column, the row with the strictly greatest magnitude on
//! or below the diagonal is chosen (the first maximum wins ties, so the
//! lowest row index is preferred), rows are swapped, and when the pivot is
//! not a zero the rows below it are reduced, storing the multipliers in
//! place of the eliminated entries. A zero pivot skips the reduction of its
//! column and raises no error. The output is one flat buffer: the
//! permutation sign, the permutation indices, then the reduced matrix.

use crate::arith::{div_fp, fp_div, fp_mul, fp_sub, mul_fp, sub_fp};
use crate::bits::{
    fp_of_uint, gt_abs_bits, gt_abs_exec, is_zero_bits, is_zero_exec, uint_to_fp,
    MAX_EXACT_UINT, NEG_ONE_BITS, ONE_BITS,
};
use crate::matrix::{lemma_rm_bound, rm};
use vstd::prelude::*;

verus! {

/// The working state of the factorization: the matrix, the permutation
/// indices, and the sign of the permutation.
#[verifier::ext_equal]
pub struct LuState {
    pub mat: Seq<u64>,
    pub piv: Seq<int>,
    pub sign: int,
}

/// The row of the maximal-magnitude entry in column `j`, scanning rows
/// `i..rows` upward from the current candidate `best`: a later row replaces
/// the candidate only when its magnitude is strictly greater, so the first
/// maximum wins.
pub open spec fn argmax_from(mat: Seq<u64>, cols: int, j: int, i: int, rows: int, best: int) -> int
    decreases rows - i,
{
    if i >= rows {
        best
    } else {
        argmax_from(
            mat,
            cols,
            j,
            i + 1,
            rows,
            if gt_abs_bits(mat[rm(i, j, cols)], mat[rm(best, j, cols)]) {
                i
            } else {
                best
            },
        )
    }
}

/// The pivot row for column `j`: the scan starts at the diagonal row.
pub open spec fn pivot_row(mat: Seq<u64>, rows: int, cols: int, j: int) -> int {
    argmax_from(mat, cols, j, j + 1, rows, j)
}

/// The matrix with rows `r1` and `r2` exchanged.
pub open spec fn swap_rows(mat: Seq<u64>, cols: int, r1: int, r2: int) -> Seq<u64> {
    Seq::new(
        mat.len(),
        |t: int|
            if t / cols == r1 {
                mat[rm(r2, t % cols, cols)]
            } else if t / cols == r2 {
                mat[rm(r1, t % cols, cols)]
            } else {
                mat[t]
            },
    )
}

/// The multiplier stored into entry (i, j) when column `j` is reduced.
pub open spec fn mult_of(mat: Seq<u64>, cols: int, j: int, i: int) -> u64 {
    div_fp(mat[rm(i, j, cols)], mat[rm(j, j, cols)])
}

/// One column's reduction: every row below `j` gets its multiplier in
/// column `j`, and each entry right of `j` drops the multiplier times the
/// pivot row's entry; everything else is unchanged.
pub open spec fn elim_step(mat: Seq<u64>, cols: int, j: int) -> Seq<u64> {
    Seq::new(
        mat.len(),
        |t: int|
            if t / cols > j && t % cols == j {
                mult_of(mat, cols, j, t / cols)
            } else if t / cols > j && t % cols > j {
                sub_fp(mat[t], mul_fp(mult_of(mat, cols, j, t / cols), mat[rm(j, t % cols, cols)]))
            } else {
                mat[t]
            },
    )
}

/// The matrix in the middle of one column's reduction: rows strictly
/// between `j` and `i2` fully reduced, row `i2` holding its multiplier and
/// reduced left of column `k2`, everything else as before the reduction.
/// With `k2 == j` row `i2` is untouched; with `i2 == j` nothing is.
pub open spec fn elim_partial(m1: Seq<u64>, cols: int, j: int, i2: int, k2: int, t3: int) -> u64 {
    let ri = t3 / cols;
    let ck = t3 % cols;
    if j < ri && ri < i2 && ck == j {
        mult_of(m1, cols, j, ri)
    } else if j < ri && ri < i2 && ck > j {
        sub_fp(m1[t3], mul_fp(mult_of(m1, cols, j, ri), m1[rm(j, ck, cols)]))
    } else if ri == i2 && ck == j && k2 > j {
        mult_of(m1, cols, j, i2)
    } else if ri == i2 && j < ck && ck < k2 {
        sub_fp(m1[t3], mul_fp(mult_of(m1, cols, j, i2), m1[rm(j, ck, cols)]))
    } else {
        m1[t3]
    }
}

/// One full pivot step on column `j`: select the pivot row, swap it into
/// place (also swapping the recorded indices and flipping the sign), then
/// reduce the column unless the pivot entry is a zero.
pub open spec fn lu_step(st: LuState, rows: int, cols: int, j: int) -> LuState {
    let p = pivot_row(st.mat, rows, cols, j);
    let st1 = if p != j {
        LuState {
            mat: swap_rows(st.mat, cols, j, p),
            piv: st.piv.update(j, st.piv[p]).update(p, st.piv[j]),
            sign: -st.sign,
        }
    } else {
        st
    };
    if !is_zero_bits(st1.mat[rm(j, j, cols)]) {
        LuState { mat: elim_step(st1.mat, cols, j), piv: st1.piv, sign: st1.sign }
    } else {
        st1
    }
}

/// The state after the first `j` pivot steps, starting from the matrix
/// itself, the identity permutation and a positive sign.
pub open spec fn lu_upto(a: Seq<u64>, rows: int, cols: int, j: int) -> LuState
    decreases j,
{
    if j <= 0 {
        LuState { mat: a, piv: Seq::new(rows as nat, |i: int| i), sign: 1 }
    } else {
        lu_step(lu_upto(a, rows, cols, j - 1), rows, cols, j - 1)
    }
}

/// The finished factorization: one pivot step per column of the leading
/// square block.
pub open spec fn lu_spec(a: Seq<u64>, rows: int, cols: int) -> LuState {
    lu_upto(a, rows, cols, if rows <= cols { rows } else { cols })
}

/// The flat output: the sign as a signed one, the permutation indices
/// encoded exactly, then the reduced matrix, row-major.
pub open spec fn lu_out_spec(a: Seq<u64>, rows: int, cols: int) -> Seq<u64> {
    let st = lu_spec(a, rows, cols);
    seq![if st.sign == 1 { ONE_BITS } else { NEG_ONE_BITS }]
        + Seq::new(rows as nat, |i: int| fp_of_uint(st.piv[i] as u64))
        + st.mat
}

/// `p` holds `rows` indices, each in range, no two equal: a permutation of
/// the row indices.
pub open spec fn perm_valid(p: Seq<int>, rows: int) -> bool {
    &&& p.len() == rows
    &&& forall|i: int| 0 <= i < rows ==> 0 <= #[trigger] p[i] < rows
    &&& forall|i1: int, i2: int| 0 <= i1 < i2 < rows ==> p[i1] != p[i2]
}

/// Every factorization state carries a valid permutation: the identity is
/// one, and each pivot step only exchanges two of its entries.
pub proof fn lemma_lu_perm_valid(a: Seq<u64>, rows: int, cols: int, j: int)
    requires
        j >= 0,
        rows >= 0,
    ensures
        perm_valid(lu_upto(a, rows, cols, j).piv, rows),
    decreases j,
{
    if j <= 0 {
        assert(perm_valid(Seq::new(rows as nat, |i: int| i), rows));
    } else {
        lemma_lu_perm_valid(a, rows, cols, j - 1);
        let st = lu_upto(a, rows, cols, j - 1);
        let p = pivot_row(st.mat, rows, cols, j - 1);
        if j - 1 < rows {
            lemma_argmax_range(st.mat, cols, j - 1, j, rows, j - 1);
            if p != j - 1 {
                let q = st.piv.update(j - 1, st.piv[p]).update(p, st.piv[j - 1]);
                assert forall|i1: int, i2: int| 0 <= i1 < i2 < rows implies q[i1] != q[i2] by {
                    assert(st.piv[i1] != st.piv[i2]);
                }
                assert(perm_valid(q, rows));
            }
        } else {
            assert(p == j - 1);
        }
    }
}

/// The scan stays within the scanned block of rows.
pub proof fn lemma_argmax_range(mat: Seq<u64>, cols: int, j: int, i: int, rows: int, best: int)
    requires
        j <= best < rows,
        j <= i,
    ensures
        j <= argmax_from(mat, cols, j, i, rows, best) < rows,
    decreases rows - i,
{
    if i >= rows {
    } else {
        let nb = if gt_abs_bits(mat[rm(i, j, cols)], mat[rm(best, j, cols)]) {
            i
        } else {
            best
        };
        assert(j <= nb < rows);
        lemma_argmax_range(mat, cols, j, i + 1, rows, nb);
    }
}

/// The pivot scan never lands past the earliest row of greatest magnitude:
/// if no row of the scanned block strictly exceeds row `r1` in magnitude,
/// the selected row is at latest `r1`. In particular, when two rows tie for
/// the greatest magnitude, the lower-indexed one is selected.
pub proof fn lemma_argmax_le(
    mat: Seq<u64>,
    cols: int,
    j: int,
    i: int,
    rows: int,
    best: int,
    r1: int,
)
    requires
        best <= r1,
        r1 < rows,
        !crate::bits::is_nan_bits(mat[rm(r1, j, cols)]),
        forall|i2: int|
            j <= i2 < rows ==> !gt_abs_bits(
                mat[#[trigger] rm(i2, j, cols)],
                mat[rm(r1, j, cols)],
            ),
        j <= best,
        j <= i,
        i > r1 ==> !gt_abs_bits(mat[rm(r1, j, cols)], mat[rm(best, j, cols)]),
    ensures
        argmax_from(mat, cols, j, i, rows, best) <= r1,
    decreases rows - i,
{
    if i >= rows {
    } else {
        let nb = if gt_abs_bits(mat[rm(i, j, cols)], mat[rm(best, j, cols)]) {
            i
        } else {
            best
        };
        if i < r1 {
            lemma_argmax_le(mat, cols, j, i + 1, rows, nb, r1);
        } else if i == r1 {
            assert(!gt_abs_bits(mat[rm(r1, j, cols)], mat[rm(r1, j, cols)]));
            lemma_argmax_le(mat, cols, j, i + 1, rows, nb, r1);
        } else {
            assert(!gt_abs_bits(mat[rm(i, j, cols)], mat[rm(r1, j, cols)]));
            if crate::bits::is_nan_bits(mat[rm(best, j, cols)]) {
                assert(nb == best);
            } else {
                assert(nb == best);
            }
            lemma_argmax_le(mat, cols, j, i + 1, rows, nb, r1);
        }
    }
}

/// The tie-break of pivot selection: when rows `r1 < r2` carry
/// equal-magnitude maximal entries in column `j`, the scan selects a row no
/// later than `r1`, never `r2`.
pub proof fn lemma_pivot_tiebreak(
    mat: Seq<u64>,
    rows: int,
    cols: int,
    j: int,
    r1: int,
    r2: int,
)
    requires
        j <= r1 < r2 < rows,
        !crate::bits::is_nan_bits(mat[rm(r1, j, cols)]),
        crate::bits::abs_bits(mat[rm(r1, j, cols)]) == crate::bits::abs_bits(mat[rm(r2, j, cols)]),
        forall|i2: int|
            j <= i2 < rows ==> !gt_abs_bits(
                mat[#[trigger] rm(i2, j, cols)],
                mat[rm(r1, j, cols)],
            ),
    ensures
        pivot_row(mat, rows, cols, j) <= r1,
        pivot_row(mat, rows, cols, j) != r2,
{
    lemma_argmax_le(mat, cols, j, j + 1, rows, j, r1);
}

/// Division and remainder facts used to tell written entries apart from
/// untouched ones while a column is reduced.
proof fn lemma_div_mod_facts(t3: int, i2: int, j: int, cols: int)
    requires
        cols > 0,
        0 <= t3,
    ensures
        t3 == (t3 / cols) * cols + t3 % cols,
        0 <= t3 % cols < cols,
        0 <= t3 / cols,
        t3 < i2 * cols ==> t3 / cols < i2,
{
    vstd::arithmetic::div_mod::lemma_fundamental_div_mod(t3, cols);
    vstd::arithmetic::div_mod::lemma_mod_bound(t3, cols);
    assert(cols * (t3 / cols) == (t3 / cols) * cols) by (nonlinear_arith);
    assert(t3 / cols >= 0) by (nonlinear_arith)
        requires
            t3 == cols * (t3 / cols) + t3 % cols,
            0 <= t3 % cols && t3 % cols < cols,
            cols > 0,
            t3 >= 0,
    ;
    if t3 < i2 * cols {
        assert(t3 / cols < i2) by (nonlinear_arith)
            requires
                t3 == cols * (t3 / cols) + t3 % cols,
                0 <= t3 % cols && t3 % cols < cols,
                cols > 0,
                t3 < i2 * cols,
        ;
    }
}

/// Division and remainder facts for indexing a square or rectangular
/// buffer by row and column.
pub(crate) proof fn lemma_div_mod_pub(t3: int, cols: int)
    requires
        cols > 0,
        0 <= t3,
    ensures
        t3 == (t3 / cols) * cols + t3 % cols,
        0 <= t3 % cols < cols,
        0 <= t3 / cols,
        t3 < cols * cols ==> t3 / cols < cols,
{
    lemma_div_mod_facts(t3, cols, 0, cols);
}

/// The factorization proper, shared by the public operations: the reduced
/// matrix, the permutation indices, and whether the permutation sign is
/// positive.
pub(crate) fn lu_core(a: &Vec<u64>, rows: usize, cols: usize) -> (r: (Vec<u64>, Vec<usize>, bool))
    requires
        a.len() == rows * cols,
        rows < MAX_EXACT_UINT,
    ensures
        r.0@ == lu_spec(a@, rows as int, cols as int).mat,
        r.1@.map_values(|v: usize| v as int) == lu_spec(a@, rows as int, cols as int).piv,
        (if r.2 {
            1int
        } else {
            -1int
        }) == lu_spec(a@, rows as int, cols as int).sign,
        r.0@.len() == rows * cols,
        r.1@.len() == rows,
        perm_valid(lu_spec(a@, rows as int, cols as int).piv, rows as int),
{
    let m: usize = if rows <= cols {
        rows
    } else {
        cols
    };
    let mut lu: Vec<u64> = Vec::new();
    let mut t: usize = 0;
    while t < a.len()
        invariant
            t <= a.len(),
            lu@ =~= a@.take(t as int),
        decreases a.len() - t,
    {
        lu.push(a[t]);
        t = t + 1;
        proof {
            assert(lu@ =~= a@.take(t as int));
        }
    }
    proof {
        assert(lu@ =~= a@);
    }
    let mut piv: Vec<usize> = Vec::new();
    let mut t2: usize = 0;
    while t2 < rows
        invariant
            t2 <= rows,
            piv@.len() == t2,
            forall|i: int| 0 <= i < t2 ==> piv@[i] == i,
        decreases rows - t2,
    {
        piv.push(t2);
        t2 = t2 + 1;
    }
    let mut sign_pos: bool = true;
    let mut j: usize = 0;
    proof {
        assert(piv@.map_values(|v: usize| v as int) =~= lu_upto(
            a@,
            rows as int,
            cols as int,
            0,
        ).piv);
    }
    while j < m
        invariant
            j <= m,
            m == (if rows <= cols {
                rows as int
            } else {
                cols as int
            }),
            a.len() == rows * cols,
            rows < MAX_EXACT_UINT,
            lu@.len() == rows * cols,
            piv@.len() == rows,
            lu@ == lu_upto(a@, rows as int, cols as int, j as int).mat,
            piv@.map_values(|v: usize| v as int) == lu_upto(
                a@,
                rows as int,
                cols as int,
                j as int,
            ).piv,
            (if sign_pos {
                1int
            } else {
                -1int
            }) == lu_upto(a@, rows as int, cols as int, j as int).sign,
        decreases m - j,
    {
        let ghost st = lu_upto(a@, rows as int, cols as int, j as int);
        proof {
            lemma_lu_perm_valid(a@, rows as int, cols as int, j as int);
            lemma_rm_bound(j as int, j as int, rows as int, cols as int);
        }
        // pivot search
        let mut best: usize = j;
        let mut i: usize = j + 1;
        while i < rows
            invariant
                j < m,
                m <= rows && m <= cols,
                a.len() == rows * cols,
                lu@.len() == rows * cols,
                j <= best < rows,
                j < i,
                argmax_from(lu@, cols as int, j as int, i as int, rows as int, best as int)
                    == pivot_row(lu@, rows as int, cols as int, j as int),
            decreases rows - i,
        {
            proof {
                lemma_rm_bound(i as int, j as int, rows as int, cols as int);
                lemma_rm_bound(best as int, j as int, rows as int, cols as int);
            }
            let cand = lu[i * cols + j];
            let cur = lu[best * cols + j];
            if gt_abs_exec(cand, cur) {
                best = i;
            }
            i = i + 1;
        }
        proof {
            assert(best as int == pivot_row(lu@, rows as int, cols as int, j as int));
        }
        let p: usize = best;
        let ghost st1 = if p as int != j as int {
            LuState {
                mat: swap_rows(st.mat, cols as int, j as int, p as int),
                piv: st.piv.update(j as int, st.piv[p as int]).update(p as int, st.piv[j as int]),
                sign: -st.sign,
            }
        } else {
            st
        };
        if p != j {
            let ghost m0 = lu@;
            let mut k: usize = 0;
            while k < cols
                invariant
                    j < m && m <= rows && m <= cols,
                    p < rows && j < rows && p != j,
                    a.len() == rows * cols,
                    lu@.len() == rows * cols,
                    m0.len() == rows * cols,
                    k <= cols,
                    forall|t3: int|
                        0 <= t3 < rows * cols ==> lu@[t3] == (if t3 / (cols as int) == j as int
                            && t3 % (cols as int) < k {
                            m0[rm(p as int, t3 % (cols as int), cols as int)]
                        } else if t3 / (cols as int) == p as int && t3 % (cols as int) < k {
                            m0[rm(j as int, t3 % (cols as int), cols as int)]
                        } else {
                            m0[t3]
                        }),
                decreases cols - k,
            {
                proof {
                    lemma_rm_bound(j as int, k as int, rows as int, cols as int);
                    lemma_rm_bound(p as int, k as int, rows as int, cols as int);
                }
                let x = lu[j * cols + k];
                let y = lu[p * cols + k];
                lu.set(j * cols + k, y);
                lu.set(p * cols + k, x);
                k = k + 1;
                proof {
                    assert forall|t3: int| 0 <= t3 < rows * cols implies lu@[t3] == (if t3 / (
                    cols as int) == j as int && t3 % (cols as int) < k {
                        m0[rm(p as int, t3 % (cols as int), cols as int)]
                    } else if t3 / (cols as int) == p as int && t3 % (cols as int) < k {
                        m0[rm(j as int, t3 % (cols as int), cols as int)]
                    } else {
                        m0[t3]
                    }) by {
                        lemma_div_mod_facts(t3, rows as int, j as int, cols as int);
                        lemma_rm_bound(j as int, k as int - 1, rows as int, cols as int);
                        lemma_rm_bound(p as int, k as int - 1, rows as int, cols as int);
                    }
                }
            }
            proof {
                assert forall|t3: int| 0 <= t3 < rows * cols implies lu@[t3] == swap_rows(
                    m0,
                    cols as int,
                    j as int,
                    p as int,
                )[t3] by {
                    vstd::arithmetic::div_mod::lemma_fundamental_div_mod(t3, cols as int);
                    assert(0 <= t3 % (cols as int) < cols as int) by {
                        vstd::arithmetic::div_mod::lemma_mod_bound(t3, cols as int);
                    }
                    if t3 / (cols as int) == j as int {
                        lemma_rm_bound(p as int, t3 % (cols as int), rows as int, cols as int);
                    } else if t3 / (cols as int) == p as int {
                        lemma_rm_bound(j as int, t3 % (cols as int), rows as int, cols as int);
                    }
                }
                assert(lu@ =~= swap_rows(m0, cols as int, j as int, p as int));
                assert(lu@ == st1.mat);
            }
            let pj = piv[j];
            let pp = piv[p];
            piv.set(j, pp);
            piv.set(p, pj);
            sign_pos = !sign_pos;
            proof {
                assert(piv@.map_values(|v: usize| v as int) =~= st1.piv);
            }
        }
        proof {
            assert(lu@ == st1.mat);
            assert(piv@.map_values(|v: usize| v as int) =~= st1.piv);
            lemma_rm_bound(j as int, j as int, rows as int, cols as int);
        }
        let pivot_entry = lu[j * cols + j];
        if !is_zero_exec(pivot_entry) {
            let ghost m1 = lu@;
            let mut i2: usize = j + 1;
            while i2 < rows
                invariant
                    j < m && m <= rows && m <= cols,
                    a.len() == rows * cols,
                    lu@.len() == rows * cols,
                    m1.len() == rows * cols,
                    j < i2 <= rows,
                    !is_zero_bits(m1[rm(j as int, j as int, cols as int)]),
                    forall|t3: int|
                        0 <= t3 < rows * cols ==> lu@[t3] == elim_partial(
                            m1,
                            cols as int,
                            j as int,
                            i2 as int,
                            j as int,
                            t3,
                        ),
                decreases rows - i2,
            {
                proof {
                    lemma_rm_bound(i2 as int, j as int, rows as int, cols as int);
                    lemma_rm_bound(j as int, j as int, rows as int, cols as int);
                }
                let mval = fp_div(lu[i2 * cols + j], lu[j * cols + j]);
                proof {
                    assert(mval == mult_of(m1, cols as int, j as int, i2 as int));
                }
                lu.set(i2 * cols + j, mval);
                proof {
                    assert forall|t3: int| 0 <= t3 < rows * cols implies lu@[t3] == elim_partial(
                        m1,
                        cols as int,
                        j as int,
                        i2 as int,
                        j as int + 1,
                        t3,
                    ) by {
                        lemma_div_mod_facts(t3, i2 as int, j as int, cols as int);
                    }
                }
                let mut k2: usize = j + 1;
                while k2 < cols
                    invariant
                        j < m && m <= rows && m <= cols,
                        a.len() == rows * cols,
                        lu@.len() == rows * cols,
                        m1.len() == rows * cols,
                        j < i2 < rows,
                        j < k2 <= cols,
                        mval == mult_of(m1, cols as int, j as int, i2 as int),
                        !is_zero_bits(m1[rm(j as int, j as int, cols as int)]),
                        forall|t3: int|
                            0 <= t3 < rows * cols ==> lu@[t3] == elim_partial(
                                m1,
                                cols as int,
                                j as int,
                                i2 as int,
                                k2 as int,
                                t3,
                            ),
                    decreases cols - k2,
                {
                    proof {
                        lemma_rm_bound(i2 as int, k2 as int, rows as int, cols as int);
                        lemma_rm_bound(j as int, k2 as int, rows as int, cols as int);
                        assert(lu@[rm(i2 as int, k2 as int, cols as int)] == m1[rm(
                            i2 as int,
                            k2 as int,
                            cols as int,
                        )]);
                        assert(lu@[rm(j as int, k2 as int, cols as int)] == m1[rm(
                            j as int,
                            k2 as int,
                            cols as int,
                        )]);
                    }
                    let sub_v = fp_sub(lu[i2 * cols + k2], fp_mul(mval, lu[j * cols + k2]));
                    lu.set(i2 * cols + k2, sub_v);
                    k2 = k2 + 1;
                    proof {
                        assert forall|t3: int| 0 <= t3 < rows * cols implies lu@[t3]
                            == elim_partial(
                            m1,
                            cols as int,
                            j as int,
                            i2 as int,
                            k2 as int,
                            t3,
                        ) by {
                            lemma_div_mod_facts(t3, i2 as int, j as int, cols as int);
                            lemma_rm_bound(i2 as int, k2 as int - 1, rows as int, cols as int);
                        }
                    }
                }
                i2 = i2 + 1;
                proof {
                    assert forall|t3: int| 0 <= t3 < rows * cols implies lu@[t3] == elim_partial(
                        m1,
                        cols as int,
                        j as int,
                        i2 as int,
                        j as int,
                        t3,
                    ) by {
                        lemma_div_mod_facts(t3, i2 as int - 1, j as int, cols as int);
                    }
                }
            }
            proof {
                assert forall|t3: int| 0 <= t3 < rows * cols implies lu@[t3] == elim_step(
                    m1,
                    cols as int,
                    j as int,
                )[t3] by {
                    lemma_div_mod_facts(t3, rows as int, j as int, cols as int);
                    assert(t3 / (cols as int) < rows as int);
                }
                assert(lu@ =~= elim_step(m1, cols as int, j as int));
            }
        }
        proof {
            let stj1 = lu_upto(a@, rows as int, cols as int, j as int + 1);
            assert(stj1 == lu_step(st, rows as int, cols as int, j as int));
            assert(lu@ == stj1.mat);
            assert(piv@.map_values(|v: usize| v as int) =~= stj1.piv);
        }
        j = j + 1;
    }
    proof {
        lemma_lu_perm_valid(a@, rows as int, cols as int, m as int);
        assert(lu_upto(a@, rows as int, cols as int, m as int) == lu_spec(
            a@,
            rows as int,
            cols as int,
        ));
    }
    (lu, piv, sign_pos)
}

/// The factorization. The output is one flat buffer: the permutation sign
/// as a signed one, the `rows` permutation indices (exactly encoded), then
/// the reduced matrix, row-major. The permutation in the output is always
/// valid: the recorded indices are exactly the row indices, each once.
pub fn luwasm(a: &Vec<u64>, rows: usize, cols: usize) -> (r: Vec<u64>)
    requires
        a.len() == rows * cols,
        rows < MAX_EXACT_UINT,
        1 + rows + rows * cols <= usize::MAX,
    ensures
        r@ == lu_out_spec(a@, rows as int, cols as int),
        r@.len() == 1 + rows + rows * cols,
        perm_valid(lu_spec(a@, rows as int, cols as int).piv, rows as int),
{
    let core = lu_core(a, rows, cols);
    let lu = core.0;
    let piv = core.1;
    let sign_pos = core.2;
    let mut out: Vec<u64> = Vec::new();
    if sign_pos {
        out.push(ONE_BITS);
    } else {
        out.push(NEG_ONE_BITS);
    }
    let mut t4: usize = 0;
    while t4 < rows
        invariant
            t4 <= rows,
            rows < MAX_EXACT_UINT,
            piv@.len() == rows,
            perm_valid(piv@.map_values(|v: usize| v as int), rows as int),
            out@.len() == 1 + t4,
            out@[0] == (if sign_pos {
                ONE_BITS
            } else {
                NEG_ONE_BITS
            }),
            forall|i: int| 0 <= i < t4 ==> out@[1 + i] == fp_of_uint(piv@[i] as u64),
        decreases rows - t4,
    {
        proof {
            assert(piv@.map_values(|v: usize| v as int)[t4 as int] == piv@[t4 as int] as int);
        }
        let e = uint_to_fp(piv[t4] as u64);
        out.push(e);
        t4 = t4 + 1;
    }
    let mut t5: usize = 0;
    while t5 < lu.len()
        invariant
            t5 <= lu@.len(),
            lu@.len() == rows * cols,
            out@.len() == 1 + rows + t5,
            forall|i: int| 0 <= i < t5 ==> out@[1 + rows + i] == lu@[i],
            out@[0] == (if sign_pos {
                ONE_BITS
            } else {
                NEG_ONE_BITS
            }),
            forall|i: int| 0 <= i < rows ==> out@[1 + i] == fp_of_uint(piv@[i] as u64),
        decreases lu@.len() - t5,
    {
        let v = lu[t5];
        out.push(v);
        t5 = t5 + 1;
    }
    proof {
        let st = lu_spec(a@, rows as int, cols as int);
        assert(st.piv == piv@.map_values(|v: usize| v as int));
        assert(st.sign == (if sign_pos {
            1int
        } else {
            -1int
        }));
        assert forall|i: int| 0 <= i < out@.len() implies out@[i] == lu_out_spec(
            a@,
            rows as int,
            cols as int,
        )[i] by {
            if 1 <= i < 1 + rows {
                assert(st.piv[i - 1] == piv@[i - 1] as int);
            }
        }
        assert(out@ =~= lu_out_spec(a@, rows as int, cols as int));
    }
    out
}

} // verus!
