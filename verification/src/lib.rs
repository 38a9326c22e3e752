//! Dense square matrix multiplication, serial and row-parallel, with an
//! element-wise comparison of results.
//!
//! Matrices are flat buffers in row-major order: element `(i, j)` of an
//! `n`-by-`n` matrix lies at index `i * n + j`. The kernels add a product to an
//! output buffer; they are generic over the element type, which brings its own
//! arithmetic and its own tolerance (see [`Scalar`]).

pub mod scalar;
pub mod kernel;
pub mod partition;
pub mod parallel;
pub mod compare;
pub mod generate;

pub use crate::compare::verify_result;
pub use crate::compare::Verdict;
pub use crate::generate::random_matrix;
pub use crate::kernel::mat_mul_serial;
pub use crate::parallel::mat_mul_parallel;
pub use crate::parallel::mat_mul_workers;
pub use crate::scalar::Scalar;
