//! What users of the commitment scheme need.

pub use crate::errors::PCSError;
pub use crate::pcs::multilinear_kzg::batch_proof::{BatchProof, BatchProofWithoutEvals};
pub use crate::pcs::multilinear_kzg::srs::{
    MultilinearProverParam, MultilinearUniversalParams, MultilinearVerifierParam,
};
pub use crate::pcs::multilinear_kzg::timing::{
    batch_open_timing_stats, reset_batch_open_timing_stats, scoped_batch_open_context,
    set_batch_open_timing_enabled, BatchOpenContextGuard, BatchOpenTimingStat,
};
