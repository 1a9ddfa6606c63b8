//! End-to-end checks of the numeric kernel against native double
//! arithmetic: the verified operations work on bit patterns, so every
//! expectation here is computed with ordinary doubles and compared on the
//! bits (or within a tolerance where a property is only approximate).

use matstat::cov::covwasm;
use matstat::inverse::{detwasm, invwasm};
use matstat::lu::luwasm;
use matstat::matrix::timeswasm;
use matstat::stats::{meanwasm, stdwasm, variancewasm, zscorewasm};

fn enc(v: &[f64]) -> Vec<u64> {
    v.iter().map(|x| x.to_bits()).collect()
}

fn dec(v: &[u64]) -> Vec<f64> {
    v.iter().map(|x| f64::from_bits(*x)).collect()
}

/// The reference Welford pass on native doubles.
fn welford_ref(arr: &[f64]) -> (f64, f64) {
    let mut mean = 0.0;
    let mut m2 = 0.0;
    for (i, &x) in arr.iter().enumerate() {
        let delta = x - mean;
        mean += delta / (i + 1) as f64;
        let delta2 = x - mean;
        m2 += delta * delta2;
    }
    (mean, m2)
}

#[test]
fn mean_empty_is_nan() {
    let r = meanwasm(&enc(&[]));
    assert!(f64::from_bits(r).is_nan());
}

#[test]
fn mean_single_is_identity() {
    for &x in &[3.5, -7.25, 0.0, 1e300, -1e-300, f64::INFINITY] {
        let r = meanwasm(&enc(&[x]));
        assert_eq!(r, x.to_bits());
    }
    let r = meanwasm(&enc(&[-0.0]));
    assert_eq!(r, 0.0f64.to_bits());
}

#[test]
fn mean_matches_native_welford() {
    let data = [1.5, 2.25, -4.0, 8.125, 0.5, 100.75];
    let (m, _) = welford_ref(&data);
    let r = meanwasm(&enc(&data));
    assert_eq!(r, m.to_bits());
}

#[test]
fn variance_empty_and_single() {
    assert!(f64::from_bits(variancewasm(&enc(&[]), 0)).is_nan());
    assert!(f64::from_bits(variancewasm(&enc(&[]), 1)).is_nan());
    assert_eq!(variancewasm(&enc(&[5.0]), 0), 0.0f64.to_bits());
    assert!(f64::from_bits(variancewasm(&enc(&[5.0]), 1)).is_nan());
}

#[test]
fn variance_matches_native_welford() {
    let data = [1.5, 2.25, -4.0, 8.125, 0.5, 100.75];
    let (_, m2) = welford_ref(&data);
    let pop = m2 / data.len() as f64;
    let smp = m2 / (data.len() - 1) as f64;
    assert_eq!(variancewasm(&enc(&data), 0), pop.to_bits());
    assert_eq!(variancewasm(&enc(&data), 1), smp.to_bits());
}

#[test]
fn std_matches_native_sqrt() {
    let data = [2.0, 4.0, 4.0, 4.0, 5.0, 5.0, 7.0, 9.0];
    let (_, m2) = welford_ref(&data);
    let pop = (m2 / data.len() as f64).sqrt();
    let smp = (m2 / (data.len() - 1) as f64).sqrt();
    assert_eq!(stdwasm(&enc(&data), 0), pop.to_bits());
    assert_eq!(stdwasm(&enc(&data), 1), smp.to_bits());
}

#[test]
fn std_degenerate_cases() {
    assert!(f64::from_bits(stdwasm(&enc(&[]), 0)).is_nan());
    assert_eq!(stdwasm(&enc(&[9.0]), 0), 0.0f64.to_bits());
    assert!(f64::from_bits(stdwasm(&enc(&[9.0]), 1)).is_nan());
}

#[test]
fn sqrt_of_many_values_matches_native() {
    let vals: [f64; 11] = [
        0.25, 2.0, 3.0, 11.0, 1e-300, 1e300, 123456.789, 5e-324, 0.1,
        2.2250738585072014e-308, 4e307,
    ];
    for &v in &vals {
        // route through the standard deviation of a two-point sample whose
        // squared-deviation sum is known exactly
        let data = [0.0, 2.0 * v.sqrt() * v.sqrt()];
        let (_, m2) = welford_ref(&data);
        let want = (m2 / 2.0).sqrt();
        assert_eq!(stdwasm(&enc(&data), 0), want.to_bits(), "value {v}");
    }
}

#[test]
fn zscore_empty_single_constant() {
    assert_eq!(zscorewasm(&enc(&[]), 0).len(), 0);
    assert_eq!(dec(&zscorewasm(&enc(&[42.0]), 1)), vec![0.0]);
    for &c in &[7.5, -3.25, 0.0, 1e200] {
        let z = dec(&zscorewasm(&enc(&[c, c, c]), 0));
        assert_eq!(z, vec![0.0, 0.0, 0.0], "constant {c}");
    }
}

#[test]
fn zscore_matches_native_formula() {
    let data = [1.0, 2.0, 3.0, 4.0, 10.0];
    let (mean, m2) = welford_ref(&data);
    let sd = (m2 / data.len() as f64).sqrt();
    let want: Vec<u64> = data.iter().map(|x| ((x - mean) / sd).to_bits()).collect();
    assert_eq!(zscorewasm(&enc(&data), 0), want);
}

#[test]
fn multiply_small_exact() {
    let a = [1.0, 2.0, 3.0, 4.0, 5.0, 6.0];
    let b = [7.0, 8.0, 9.0, 10.0, 11.0, 12.0];
    let r = dec(&timeswasm(&enc(&a), &enc(&b), 2, 3, 2));
    assert_eq!(r, vec![58.0, 64.0, 139.0, 154.0]);
}

#[test]
fn multiply_empty_dimension() {
    let r = timeswasm(&enc(&[]), &enc(&[]), 0, 0, 0);
    assert_eq!(r.len(), 0);
}

/// The reference factorization on native doubles, exactly as the kernel
/// defines it.
fn lu_ref(a: &[f64], rows: usize, cols: usize) -> Vec<f64> {
    let mut lu = a.to_vec();
    let mut piv: Vec<usize> = (0..rows).collect();
    let mut sign = 1.0f64;
    for j in 0..rows.min(cols) {
        let mut max_index = j;
        for i in (j + 1)..rows {
            if lu[i * cols + j].abs() > lu[max_index * cols + j].abs() {
                max_index = i;
            }
        }
        if max_index != j {
            for k in 0..cols {
                lu.swap(max_index * cols + k, j * cols + k);
            }
            piv.swap(max_index, j);
            sign = -sign;
        }
        if lu[j * cols + j] != 0.0 {
            for i in (j + 1)..rows {
                lu[i * cols + j] /= lu[j * cols + j];
                for k in (j + 1)..cols {
                    lu[i * cols + k] -= lu[i * cols + j] * lu[j * cols + k];
                }
            }
        }
    }
    let mut out = Vec::with_capacity(1 + rows + rows * cols);
    out.push(sign);
    for &p in &piv {
        out.push(p as f64);
    }
    out.extend_from_slice(&lu);
    out
}

#[test]
fn lu_matches_native_reference() {
    let a = [2.0, 1.0, 1.0, 4.0, -6.0, 0.0, -2.0, 7.0, 2.0];
    let got = dec(&luwasm(&enc(&a), 3, 3));
    let want = lu_ref(&a, 3, 3);
    assert_eq!(got, want);
}

#[test]
fn lu_rectangular_matches_native_reference() {
    let a = [1.0, 2.0, 3.0, 4.0, 5.0, 6.0, 7.0, 8.0];
    let got = dec(&luwasm(&enc(&a), 4, 2));
    let want = lu_ref(&a, 4, 2);
    assert_eq!(got, want);
    let b = [3.0, 1.0, 4.0, 1.0, 5.0, 9.0];
    let got = dec(&luwasm(&enc(&b), 2, 3));
    let want = lu_ref(&b, 2, 3);
    assert_eq!(got, want);
}

#[test]
fn lu_tiebreak_prefers_lower_row() {
    // rows 0 and 1 tie in magnitude in column 0: no swap happens
    let a = [2.0, 1.0, -2.0, 5.0];
    let out = dec(&luwasm(&enc(&a), 2, 2));
    assert_eq!(out[0], 1.0); // sign untouched
    assert_eq!(&out[1..3], &[0.0, 1.0]); // identity permutation
}

#[test]
fn lu_zero_pivot_skips_elimination() {
    let a = [0.0, 1.0, 0.0, 2.0];
    let got = dec(&luwasm(&enc(&a), 2, 2));
    let want = lu_ref(&a, 2, 2);
    assert_eq!(got, want);
}

#[test]
fn lu_reconstructs_permuted_matrix() {
    let a = [4.0, 3.0, 2.0, 1.0, 0.5, -2.0, 7.5, 1.25, -3.0];
    let n = 3;
    let out = dec(&luwasm(&enc(&a), n, n));
    let piv: Vec<usize> = out[1..1 + n].iter().map(|&p| p as usize).collect();
    let lu = &out[1 + n..];
    for i in 0..n {
        for j in 0..n {
            // (L * U)[i][j] with the implicit unit diagonal of L
            let mut s = 0.0f64;
            for k in 0..n {
                let l = if k < i {
                    lu[i * n + k]
                } else if k == i {
                    1.0
                } else {
                    0.0
                };
                let u = if k <= j { lu[k * n + j] } else { 0.0 };
                s += l * u;
            }
            let pa = a[piv[i] * n + j];
            assert!((s - pa).abs() <= 1e-9, "entry ({i},{j}): {s} vs {pa}");
        }
    }
}

#[test]
fn det_of_zero_row_matrix_is_exactly_zero() {
    let a = [1.0, 2.0, 3.0, 0.0, 0.0, 0.0, 4.0, 5.0, 6.0];
    assert_eq!(detwasm(&enc(&a), 3), 0.0f64.to_bits());
}

#[test]
fn det_small_exact() {
    let a = [3.0, 8.0, 4.0, 6.0];
    assert_eq!(detwasm(&enc(&a), 2), (-14.0f64).to_bits());
    let b = [2.0, 0.0, 0.0, 0.0, 3.0, 0.0, 0.0, 0.0, 4.0];
    assert_eq!(detwasm(&enc(&b), 3), 24.0f64.to_bits());
}

#[test]
fn det_near_zero_snaps() {
    let a = [1e-8, 0.0, 0.0, 1e-8];
    assert_eq!(detwasm(&enc(&a), 2), 0.0f64.to_bits());
}

#[test]
fn inverse_of_singular_is_all_nan() {
    let a = [1.0, 2.0, 2.0, 4.0];
    let r = dec(&invwasm(&enc(&a), 2));
    assert_eq!(r.len(), 4);
    assert!(r.iter().all(|x| x.is_nan()));
}

#[test]
fn inverse_small_exact() {
    let a = [4.0, 7.0, 2.0, 6.0];
    let r = dec(&invwasm(&enc(&a), 2));
    for (got, want) in r.iter().zip([0.6, -0.7, -0.2, 0.4]) {
        assert!((got - want).abs() <= 1e-12, "{got} vs {want}");
    }
}

#[test]
fn inverse_times_matrix_is_identity() {
    let a = [2.0, -1.0, 0.5, 1.0, 3.0, -2.0, 0.0, 1.5, 4.0];
    let n = 3;
    let inv = invwasm(&enc(&a), n);
    let prod = dec(&timeswasm(&enc(&a), &inv, n, n, n));
    for i in 0..n {
        for j in 0..n {
            let want = if i == j { 1.0 } else { 0.0 };
            assert!(
                (prod[i * n + j] - want).abs() <= 1e-9,
                "entry ({i},{j}) = {}",
                prod[i * n + j]
            );
        }
    }
}

/// The reference covariance on native doubles, in the kernel's fold order.
fn cov_ref(data: &[f64], rows: usize, cols: usize, flag: u8) -> Vec<f64> {
    let means: Vec<f64> = (0..cols)
        .map(|j| (0..rows).map(|i| data[i * cols + j]).sum::<f64>() / rows as f64)
        .collect();
    let centered: Vec<f64> = data
        .iter()
        .enumerate()
        .map(|(t, x)| x - means[t % cols])
        .collect();
    let mut out = vec![0.0; cols * cols];
    for i in 0..cols {
        for j in 0..cols {
            let mut s = 0.0;
            for k in 0..rows {
                s += centered[k * cols + i] * centered[k * cols + j];
            }
            out[i * cols + j] = s / (rows - flag as usize) as f64;
        }
    }
    out
}

#[test]
fn covariance_two_columns_manual_formula() {
    let data = [1.0, 2.0, 3.0, 5.0, 5.0, 11.0];
    let (rows, cols) = (3, 2);
    for flag in [0u8, 1u8] {
        let got = dec(&covwasm(&enc(&data), rows, cols, flag));
        // the hand formula for the off-diagonal entry
        let mx = (1.0 + 3.0 + 5.0) / 3.0;
        let my = (2.0 + 5.0 + 11.0) / 3.0;
        let s = (1.0 - mx) * (2.0 - my) + (3.0 - mx) * (5.0 - my) + (5.0 - mx) * (11.0 - my);
        let want = s / (rows - flag as usize) as f64;
        assert_eq!(got[1], want, "flag {flag}");
        assert_eq!(got[2], want, "flag {flag}");
        let full = cov_ref(&data, rows, cols, flag);
        assert_eq!(got, full, "flag {flag}");
    }
}

#[test]
fn covariance_three_columns_matches_reference() {
    let data = [2.0, -1.0, 4.0, 0.5, 3.0, -2.0, 1.0, 1.0, 1.0, -3.0, 2.0, 0.0];
    let got = dec(&covwasm(&enc(&data), 4, 3, 1));
    let want = cov_ref(&data, 4, 3, 1);
    assert_eq!(got, want);
}

#[test]
fn inverse_with_row_swap_exact() {
    let a = [1.0, 2.0, 3.0, 4.0];
    let r = dec(&invwasm(&enc(&a), 2));
    for (got, want) in r.iter().zip([-2.0, 1.0, 1.5, -0.5]) {
        assert!((got - want).abs() <= 1e-12, "{got} vs {want}");
    }
}

#[test]
fn lu_larger_matrix_matches_native_reference() {
    let a = [
        0.5, -3.0, 2.5, 1.0, 4.0, 0.25, -1.5, 2.0, -2.0, 6.0, 0.125, -0.75, 3.5, 1.25, -5.0, 0.0,
    ];
    let got = dec(&luwasm(&enc(&a), 4, 4));
    let want = lu_ref(&a, 4, 4);
    assert_eq!(got, want);
}

#[test]
fn zscore_sample_flag_matches_native() {
    let data = [3.0, 7.0, 7.0, 19.0];
    let (mean, m2) = welford_ref(&data);
    let sd = (m2 / (data.len() - 1) as f64).sqrt();
    let want: Vec<u64> = data.iter().map(|x| ((x - mean) / sd).to_bits()).collect();
    assert_eq!(zscorewasm(&enc(&data), 1), want);
}
