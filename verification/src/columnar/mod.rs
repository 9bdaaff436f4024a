//! Columns of values, and batches of rows in columns.

pub mod batch;
pub mod column;
pub mod rows;
