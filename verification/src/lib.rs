//! Sum-check provers and sum-check based batch openings for multilinear
//! polynomial commitments, with machine-checked contracts.

use vstd::prelude::*;

pub mod arithmetic;
pub mod bls12_381;
pub mod errors;
pub mod field;
pub mod math;
pub mod pcs;
pub mod poly_iop;
pub mod text;

verus! {

} // verus!
