//! The multilinear commitment scheme.

pub mod batch_proof;
pub mod batching;
pub mod completeness;
pub mod memory;
pub mod opening;
pub mod rss;
pub mod sharing;
pub mod soundness;
pub mod srs;
pub mod timing;
pub mod util;
