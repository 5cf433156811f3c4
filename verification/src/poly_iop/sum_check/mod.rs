//! The sum-check protocol.

pub mod consistency;
pub mod correctness;
pub mod dense_prover;
pub mod mixed_prover;
pub mod prover;
pub mod sparse_product;
