//! A small numeric kernel: matrix algebra (multiplication, LU factorization
//! with partial pivoting, determinant, inversion) and descriptive statistics
//! (mean, variance, standard deviation, z-score, covariance) over flat,
//! row-major buffers of IEEE 754 binary64 values.
//!
//! Every number is carried as its 64-bit pattern (`u64`), so that the
//! arithmetic itself can be pinned down in contracts: each rounding operation
//! goes through one trusted call into a software floating-point library, and
//! everything around those calls — pivot selection, permutation bookkeeping,
//! buffer layout, the exact order in which partial results are folded — is
//! verified.

pub mod arith;
pub mod bits;
pub mod cov;
pub mod inverse;
pub mod lu;
pub mod matrix;
pub mod sqrt;
pub mod stats;
