//! InfraLens: storage, query and cluster logic for telemetry data.

pub mod bytes;
pub mod cluster;
pub mod columnar;
pub mod common;
pub mod float;
pub mod hash;
pub mod ingest;
pub mod json;
pub mod operator;
pub mod query;
pub mod rpc;
pub mod sha256;
pub mod storage;
pub mod text;
