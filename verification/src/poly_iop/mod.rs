//! Interactive oracle proofs.

pub mod structs;
pub mod sum_check;
