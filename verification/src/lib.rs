//! Sparse matrices in compressed-row form, and a row-wise merge of two of
//! them in which the incoming matrix's cells override the base's.
//!
//! A [`CsrMatrix`] is the compact form that is handed in and out. To merge,
//! the base matrix is expanded into a [`DokMatrix`], one map per row, the
//! incoming matrix's cells are written into it, and the result is compacted
//! again: [`CsrMatrix::add`] does the three steps.

pub mod cells;
pub mod error;
pub mod laws;
pub mod order;
pub mod rowmap;
pub mod sparse;

pub use error::MatrixError;
pub use sparse::CsrMatrix;
pub use sparse::DokMatrix;
