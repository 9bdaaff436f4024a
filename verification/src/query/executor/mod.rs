//! Execution of plans, batch by batch.

pub mod aggregate;
pub mod laws;
pub mod operator;
pub mod rows;
pub mod scan;
pub mod sort;
pub mod tree;
