//! The mathematics that the contracts speak of: congruences, finite sums and
//! products, multilinear extensions, interpolation.

pub mod boolean;
pub mod grouping;
pub mod interpolation;
pub mod modular;
pub mod multilinear;
pub mod sparse;
pub mod sums;
pub mod terms;
