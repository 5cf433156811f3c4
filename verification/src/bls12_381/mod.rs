//! The BLS12-381 curve: its scalar field and its two source groups.

pub mod draw;
pub mod group;
pub mod scalar;

pub use group::{G1Affine, G2Affine};
pub use scalar::Fr;
