//! Column-covariance matrix of an observation matrix: per-column means,
//! a centered copy, and the transposed product over the observation count
//! less the normalization flag.

use crate::arith::{add_fp, div_fp, fp_add, fp_div, fp_sub, mul_fp, sub_fp};
use crate::bits::{fp_of_uint, uint_to_fp, MAX_EXACT_UINT, POS_ZERO};
use crate::lu::lemma_div_mod_pub;
use crate::matrix::{lemma_rm_bound, matmul_spec, prod_entry, prod_entry_prefix, rm, timeswasm};
use vstd::prelude::*;

verus! {

/// The sum of the first `i` entries of column `j`, folded in ascending row
/// order from positive zero.
pub open spec fn col_sum(data: Seq<u64>, cols: int, j: int, i: int) -> u64
    decreases i,
{
    if i <= 0 {
        POS_ZERO
    } else {
        add_fp(col_sum(data, cols, j, i - 1), data[rm(i - 1, j, cols)])
    }
}

/// The mean of column `j`: the column sum over the observation count.
pub open spec fn col_mean(data: Seq<u64>, rows: int, cols: int, j: int) -> u64 {
    div_fp(col_sum(data, cols, j, rows), fp_of_uint(rows as u64))
}

/// The centered matrix: each entry less its column's mean.
pub open spec fn centered_spec(data: Seq<u64>, rows: int, cols: int) -> Seq<u64> {
    Seq::new(
        (rows * cols) as nat,
        |t: int| sub_fp(data[t], col_mean(data, rows, cols, t % cols)),
    )
}

/// The transpose of a `rows` by `cols` matrix, row-major on both sides.
pub open spec fn transpose_spec(m: Seq<u64>, rows: int, cols: int) -> Seq<u64> {
    Seq::new((cols * rows) as nat, |t: int| m[rm(t % rows, t / rows, cols)])
}

/// The covariance matrix: the transposed centered matrix times the
/// centered matrix, every entry over the observation count less the flag.
pub open spec fn cov_spec(data: Seq<u64>, rows: int, cols: int, flag: u8) -> Seq<u64> {
    let c = centered_spec(data, rows, cols);
    let ct = transpose_spec(c, rows, cols);
    Seq::new(
        (cols * cols) as nat,
        |t: int|
            div_fp(
                prod_entry(ct, c, rows, cols, t / cols, t % cols),
                fp_of_uint((rows - flag as int) as u64),
            ),
    )
}

/// The covariance of a data matrix (`rows` observations by `cols`
/// variables) under normalization `flag`. When `rows` equals the flag the
/// divisor is a zero and the infinities or NaNs of the division are
/// propagated unchanged.
pub fn covwasm(data: &Vec<u64>, rows: usize, cols: usize, flag: u8) -> (r: Vec<u64>)
    requires
        data.len() == rows * cols,
        rows < MAX_EXACT_UINT,
        flag <= 1,
        flag as usize <= rows,
        cols * cols <= usize::MAX,
    ensures
        r@ == cov_spec(data@, rows as int, cols as int, flag),
        r@.len() == cols * cols,
{
    let nb_rows = uint_to_fp(rows as u64);
    let mut means: Vec<u64> = Vec::new();
    let mut j: usize = 0;
    while j < cols
        invariant
            j <= cols,
            data.len() == rows * cols,
            rows < MAX_EXACT_UINT,
            nb_rows == fp_of_uint(rows as u64),
            means@.len() == j,
            forall|j2: int|
                0 <= j2 < j ==> means@[j2] == col_mean(data@, rows as int, cols as int, j2),
        decreases cols - j,
    {
        let mut acc: u64 = POS_ZERO;
        let mut i: usize = 0;
        while i < rows
            invariant
                i <= rows,
                j < cols,
                data.len() == rows * cols,
                acc == col_sum(data@, cols as int, j as int, i as int),
            decreases rows - i,
        {
            proof {
                lemma_rm_bound(i as int, j as int, rows as int, cols as int);
            }
            acc = fp_add(acc, data[i * cols + j]);
            i = i + 1;
        }
        means.push(fp_div(acc, nb_rows));
        j = j + 1;
    }
    let mut cent: Vec<u64> = Vec::new();
    let total = rows * cols;
    let mut t: usize = 0;
    while t < total
        invariant
            t <= total,
            total == rows * cols,
            data.len() == rows * cols,
            cols > 0 || total == 0,
            means@.len() == cols,
            forall|j2: int|
                0 <= j2 < cols ==> means@[j2] == col_mean(data@, rows as int, cols as int, j2),
            cent@.len() == t,
            forall|t2: int|
                0 <= t2 < t ==> cent@[t2] == sub_fp(
                    data@[t2],
                    col_mean(data@, rows as int, cols as int, t2 % (cols as int)),
                ),
        decreases total - t,
    {
        proof {
            lemma_div_mod_pub(t as int, cols as int);
            assert(t % cols < cols) by (nonlinear_arith)
                requires
                    cols > 0,
                    t >= 0,
            ;
        }
        let jt = t % cols;
        let e = fp_sub(data[t], means[jt]);
        cent.push(e);
        t = t + 1;
    }
    proof {
        assert(cent@ =~= centered_spec(data@, rows as int, cols as int));
    }
    let mut ct: Vec<u64> = Vec::new();
    let mut i3: usize = 0;
    while i3 < cols
        invariant
            i3 <= cols,
            data.len() == rows * cols,
            cent@.len() == rows * cols,
            ct@.len() == i3 * rows,
            forall|ii: int, kk: int|
                0 <= ii < i3 && 0 <= kk < rows ==> ct@[rm(ii, kk, rows as int)] == cent@[rm(
                    kk,
                    ii,
                    cols as int,
                )],
        decreases cols - i3,
    {
        let mut k3: usize = 0;
        proof {
            assert((i3 + 1) * rows == i3 * rows + rows) by (nonlinear_arith);
            assert((i3 as int + 1) * (rows as int) <= (cols as int) * (rows as int))
                by (nonlinear_arith)
                requires
                    0 <= (i3 as int) && (i3 as int) < (cols as int),
                    0 <= (rows as int),
            ;
            assert((cols as int) * (rows as int) == (rows as int) * (cols as int))
                by (nonlinear_arith);
        }
        while k3 < rows
            invariant
                i3 < cols,
                k3 <= rows,
                data.len() == rows * cols,
                cent@.len() == rows * cols,
                ct@.len() == i3 * rows + k3,
                forall|ii: int, kk: int|
                    0 <= ii < i3 && 0 <= kk < rows ==> ct@[rm(ii, kk, rows as int)] == cent@[rm(
                        kk,
                        ii,
                        cols as int,
                    )],
                forall|kk: int|
                    0 <= kk < k3 ==> ct@[rm(i3 as int, kk, rows as int)] == cent@[rm(
                        kk,
                        i3 as int,
                        cols as int,
                    )],
            decreases rows - k3,
        {
            proof {
                lemma_rm_bound(k3 as int, i3 as int, rows as int, cols as int);
            }
            let e = cent[k3 * cols + i3];
            ct.push(e);
            k3 = k3 + 1;
            proof {
                lemma_rm_bound(i3 as int, k3 as int - 1, cols as int, rows as int);
                assert forall|ii: int, kk: int|
                    0 <= ii < i3 && 0 <= kk < rows implies ct@[rm(ii, kk, rows as int)] == cent@[rm(
                        kk,
                        ii,
                        cols as int,
                    )] by {
                    lemma_rm_bound(ii, kk, i3 as int, rows as int);
                }
            }
        }
        i3 = i3 + 1;
        proof {
            assert forall|ii: int, kk: int|
                0 <= ii < i3 && 0 <= kk < rows implies ct@[rm(ii, kk, rows as int)] == cent@[rm(
                    kk,
                    ii,
                    cols as int,
                )] by {
                lemma_rm_bound(ii, kk, i3 as int, rows as int);
            }
        }
    }
    proof {
        assert forall|t2: int|
            0 <= t2 < (cols as int) * (rows as int) implies ct@[t2] == transpose_spec(
            cent@,
            rows as int,
            cols as int,
        )[t2] by {
            if rows > 0 {
                lemma_div_mod_pub(t2, rows as int);
                assert(t2 / (rows as int) < cols as int) by (nonlinear_arith)
                    requires
                        t2 == (t2 / (rows as int)) * (rows as int) + t2 % (rows as int),
                        0 <= t2 % (rows as int) && (t2 % (rows as int)) < (rows as int),
                        0 <= t2 && t2 < (cols as int) * (rows as int),
                        (rows as int) > 0,
                ;
                lemma_rm_bound(t2 / (rows as int), t2 % (rows as int), cols as int, rows as int);
            } else {
                assert((cols as int) * 0 == 0);
            }
        }
        assert(ct@ =~= transpose_spec(cent@, rows as int, cols as int));
    }
    let prod = timeswasm(&ct, &cent, cols, rows, cols);
    let nb = uint_to_fp((rows - flag as usize) as u64);
    let mut out: Vec<u64> = Vec::new();
    let total2 = cols * cols;
    let mut t5: usize = 0;
    while t5 < total2
        invariant
            t5 <= total2,
            total2 == cols * cols,
            prod@.len() == cols * cols,
            prod@ == matmul_spec(ct@, cent@, cols as int, rows as int, cols as int),
            nb == fp_of_uint((rows - flag as int) as u64),
            out@.len() == t5,
            forall|t2: int| 0 <= t2 < t5 ==> out@[t2] == div_fp(prod@[t2], nb),
        decreases total2 - t5,
    {
        let e = fp_div(prod[t5], nb);
        out.push(e);
        t5 = t5 + 1;
    }
    proof {
        let cs = cov_spec(data@, rows as int, cols as int, flag);
        assert forall|t2: int| 0 <= t2 < out@.len() implies out@[t2] == cs[t2] by {
            assert(prod@[t2] == matmul_spec(
                ct@,
                cent@,
                cols as int,
                rows as int,
                cols as int,
            )[t2]);
        }
        assert(out@ =~= cs);
    }
    out
}

/// The entry pairing columns zero and one of a two-column data set, as the
/// hand formula writes it: the running sum of the products of the centered
/// pairs, in ascending row order.
pub open spec fn manual_pair_sum(data: Seq<u64>, rows: int, i: int) -> u64
    decreases i,
{
    if i <= 0 {
        POS_ZERO
    } else {
        add_fp(
            manual_pair_sum(data, rows, i - 1),
            mul_fp(
                sub_fp(data[rm(i - 1, 0, 2)], col_mean(data, rows, 2, 0)),
                sub_fp(data[rm(i - 1, 1, 2)], col_mean(data, rows, 2, 1)),
            ),
        )
    }
}

proof fn lemma_pair_prefix(data: Seq<u64>, rows: int, k: int)
    requires
        0 <= k <= rows,
        data.len() == rows * 2,
    ensures
        prod_entry_prefix(
            transpose_spec(centered_spec(data, rows, 2), rows, 2),
            centered_spec(data, rows, 2),
            rows,
            2,
            0,
            1,
            k,
        ) == manual_pair_sum(data, rows, k),
    decreases k,
{
    if k > 0 {
        lemma_pair_prefix(data, rows, k - 1);
        let c = centered_spec(data, rows, 2);
        let ct = transpose_spec(c, rows, 2);
        lemma_rm_bound(k - 1, 0, rows, 2);
        lemma_rm_bound(k - 1, 1, rows, 2);
        assert(rm(0, k - 1, rows) == k - 1);
        assert(0 <= k - 1 < 2 * rows) by (nonlinear_arith)
            requires
                0 < k && k <= rows,
        ;
        assert((k - 1) % rows == k - 1 && (k - 1) / rows == 0) by {
            vstd::arithmetic::div_mod::lemma_fundamental_div_mod_converse(k - 1, rows, 0, k - 1);
        }
        assert(ct[k - 1] == c[rm(k - 1, 0, 2)]);
    }
}

/// The law of the two-column covariance: the off-diagonal entry of the
/// covariance matrix of a two-column data set is exactly the hand formula,
/// the sum of the products of the centered pairs over the observation
/// count less the flag.
pub proof fn lemma_cov_pair_formula(data: Seq<u64>, rows: int, flag: u8)
    requires
        data.len() == rows * 2,
        rows >= 0,
    ensures
        cov_spec(data, rows, 2, flag)[1] == div_fp(
            manual_pair_sum(data, rows, rows),
            fp_of_uint((rows - flag as int) as u64),
        ),
{
    lemma_pair_prefix(data, rows, rows);
    assert(1int / 2 == 0 && 1int % 2 == 1);
}

} // verus!
