//! Polynomial commitments: batch openings and structured reference strings.

pub mod multilinear_kzg;
pub mod prelude;
