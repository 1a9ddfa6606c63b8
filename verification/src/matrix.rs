//! Dense product of two row-major matrices.

use crate::arith::{add_fp, fp_add, fp_mul, mul_fp};
use crate::bits::POS_ZERO;
use vstd::arithmetic::div_mod::{
    lemma_fundamental_div_mod, lemma_fundamental_div_mod_converse,
};
use vstd::prelude::*;

verus! {

/// Row-major offset of entry (i, j) in a matrix with `cols` columns.
pub open spec fn rm(i: int, j: int, cols: int) -> int {
    i * cols + j
}

/// A row-major offset of an in-range entry lies inside the buffer.
pub proof fn lemma_rm_bound(i: int, j: int, rows: int, cols: int)
    requires
        0 <= i < rows,
        0 <= j < cols,
    ensures
        0 <= rm(i, j, cols) < rows * cols,
        rm(i, j, cols) / cols == i,
        rm(i, j, cols) % cols == j,
{
    assert(0 <= i * cols + j && i * cols + j < rows * cols) by (nonlinear_arith)
        requires
            0 <= i && i < rows,
            0 <= j && j < cols,
    ;
    lemma_fundamental_div_mod_converse(i * cols + j, cols, i, j);
}

/// The first `k` terms of entry (i, j) of the product, folded in ascending
/// order of the inner index, starting from positive zero: exactly the order
/// in which the running sum is accumulated.
pub open spec fn prod_entry_prefix(
    a: Seq<u64>,
    b: Seq<u64>,
    cols_a: int,
    cols_b: int,
    i: int,
    j: int,
    k: int,
) -> u64
    decreases k,
{
    if k <= 0 {
        POS_ZERO
    } else {
        add_fp(
            prod_entry_prefix(a, b, cols_a, cols_b, i, j, k - 1),
            mul_fp(a[rm(i, k - 1, cols_a)], b[rm(k - 1, j, cols_b)]),
        )
    }
}

/// Entry (i, j) of the product of `a` (with `cols_a` columns) and `b`
/// (with `cols_b` columns): the full fold over the shared dimension.
pub open spec fn prod_entry(
    a: Seq<u64>,
    b: Seq<u64>,
    cols_a: int,
    cols_b: int,
    i: int,
    j: int,
) -> u64 {
    prod_entry_prefix(a, b, cols_a, cols_b, i, j, cols_a)
}

/// The whole product, row-major.
pub open spec fn matmul_spec(
    a: Seq<u64>,
    b: Seq<u64>,
    rows_a: int,
    cols_a: int,
    cols_b: int,
) -> Seq<u64> {
    Seq::new(
        (rows_a * cols_b) as nat,
        |t: int| prod_entry(a, b, cols_a, cols_b, t / cols_b, t % cols_b),
    )
}

/// Standard dense matrix multiplication: `a` is `rows_a` by `cols_a` and
/// `b` is `cols_a` by `cols_b`, both row-major; the result is `rows_a` by
/// `cols_b`, each entry the inner product of a row of `a` with a column of
/// `b`, accumulated in ascending order of the shared index.
pub fn timeswasm(a: &Vec<u64>, b: &Vec<u64>, rows_a: usize, cols_a: usize, cols_b: usize) -> (r:
    Vec<u64>)
    requires
        a.len() == rows_a * cols_a,
        b.len() == cols_a * cols_b,
        rows_a * cols_b <= usize::MAX,
    ensures
        r@ == matmul_spec(a@, b@, rows_a as int, cols_a as int, cols_b as int),
        r@.len() == rows_a * cols_b,
{
    let mut out: Vec<u64> = Vec::new();
    let mut i: usize = 0;
    while i < rows_a
        invariant
            i <= rows_a,
            a.len() == rows_a * cols_a,
            b.len() == cols_a * cols_b,
            rows_a * cols_b <= usize::MAX,
            out@.len() == i * cols_b,
            forall|ii: int, jj: int|
                0 <= ii < i && 0 <= jj < cols_b ==> out@[rm(ii, jj, cols_b as int)]
                    == prod_entry(a@, b@, cols_a as int, cols_b as int, ii, jj),
        decreases rows_a - i,
    {
        let mut j: usize = 0;
        proof {
            assert((i + 1) * cols_b <= rows_a * cols_b && i * cols_b + cols_b == (i + 1)
                * cols_b) by (nonlinear_arith)
                requires
                    0 <= (i as int) && (i as int) < (rows_a as int),
                    0 <= (cols_b as int),
            ;
        }
        while j < cols_b
            invariant
                i < rows_a,
                j <= cols_b,
                a.len() == rows_a * cols_a,
                b.len() == cols_a * cols_b,
                rows_a * cols_b <= usize::MAX,
                i * cols_b + cols_b <= rows_a * cols_b,
                out@.len() == i * cols_b + j,
                forall|ii: int, jj: int|
                    0 <= ii < i && 0 <= jj < cols_b ==> out@[rm(ii, jj, cols_b as int)]
                        == prod_entry(a@, b@, cols_a as int, cols_b as int, ii, jj),
                forall|jj: int|
                    0 <= jj < j ==> out@[rm(i as int, jj, cols_b as int)]
                        == prod_entry(a@, b@, cols_a as int, cols_b as int, i as int, jj),
            decreases cols_b - j,
        {
            let mut acc: u64 = POS_ZERO;
            let mut k: usize = 0;
            while k < cols_a
                invariant
                    i < rows_a,
                    j < cols_b,
                    k <= cols_a,
                    a.len() == rows_a * cols_a,
                    b.len() == cols_a * cols_b,
                    acc == prod_entry_prefix(
                        a@,
                        b@,
                        cols_a as int,
                        cols_b as int,
                        i as int,
                        j as int,
                        k as int,
                    ),
                decreases cols_a - k,
            {
                proof {
                    assert(i * cols_a + k < rows_a * cols_a && k * cols_b + j < cols_a
                        * cols_b) by (nonlinear_arith)
                        requires
                            0 <= (i as int) && (i as int) < (rows_a as int),
                            0 <= (k as int) && (k as int) < (cols_a as int),
                            0 <= (j as int) && (j as int) < (cols_b as int),
                    ;
                }
                let av = a[i * cols_a + k];
                let bv = b[k * cols_b + j];
                acc = fp_add(acc, fp_mul(av, bv));
                k = k + 1;
            }
            out.push(acc);
            j = j + 1;
            proof {
                lemma_rm_bound(i as int, j as int - 1, i as int + 1, cols_b as int);
                assert forall|ii2: int, jj2: int|
                    0 <= ii2 < i && 0 <= jj2 < cols_b implies out@[rm(ii2, jj2, cols_b as int)]
                    == prod_entry(a@, b@, cols_a as int, cols_b as int, ii2, jj2) by {
                    lemma_rm_bound(ii2, jj2, i as int, cols_b as int);
                }
            }
        }
        proof {
            assert forall|ii: int, jj: int|
                0 <= ii < i + 1 && 0 <= jj < cols_b implies out@[rm(ii, jj, cols_b as int)]
                == prod_entry(a@, b@, cols_a as int, cols_b as int, ii, jj) by {
                lemma_rm_bound(ii, jj, i as int + 1, cols_b as int);
                assert((i as int + 1) * (cols_b as int) == i * cols_b + cols_b)
                    by (nonlinear_arith);
            }
        }
        i = i + 1;
    }
    proof {
        assert(out@.len() == rows_a * cols_b);
        let spec_seq = matmul_spec(a@, b@, rows_a as int, cols_a as int, cols_b as int);
        assert forall|t: int| 0 <= t < out@.len() implies out@[t] == spec_seq[t] by {
            let cb = cols_b as int;
            if cb == 0 {
                assert((rows_a as int) * 0 == 0);
            } else {
                lemma_fundamental_div_mod(t, cb);
                let ii = t / cb;
                let jj = t % cb;
                assert(0 <= ii && ii < (rows_a as int)) by (nonlinear_arith)
                    requires
                        t == cb * (t / cb) + t % cb,
                        0 <= t && t < (rows_a as int) * cb,
                        0 <= t % cb,
                        t % cb < cb,
                        ii == t / cb,
                ;
                assert(out@[rm(ii, jj, cb)] == prod_entry(a@, b@, cols_a as int, cb, ii, jj));
                assert(ii * cb == cb * ii) by (nonlinear_arith);
                assert(rm(ii, jj, cb) == t);
            }
        }
        assert(out@ =~= spec_seq);
    }
    out
}

} // verus!
