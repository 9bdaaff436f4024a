//! Evaluation of expressions over batches.

pub mod compute;
pub mod eval;
pub mod laws;
pub mod like;
pub mod rowwise;
pub mod temporal;
