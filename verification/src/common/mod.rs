//! Types shared by all layers: data model, table schemas, configuration.

pub mod config;
pub mod error;
pub mod lists;
pub mod model;
pub mod schema;
