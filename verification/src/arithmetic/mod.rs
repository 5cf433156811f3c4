//! Multilinear polynomials and sums of products of them.

pub mod dense;
pub mod eq;
pub mod virtual_polynomial;

pub use dense::DenseMultilinearExtension;
pub use virtual_polynomial::{VPAuxInfo, VirtualPolynomial};
