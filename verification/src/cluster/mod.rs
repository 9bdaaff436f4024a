//! Cluster membership, placement of data on nodes, and replication.

pub mod config;
pub mod error;
pub mod membership;
pub mod replication;
pub mod ring;
pub mod router;
