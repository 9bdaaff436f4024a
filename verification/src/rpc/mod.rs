//! Messages between the nodes of a cluster.

pub mod scatter_gather;
pub mod server;
