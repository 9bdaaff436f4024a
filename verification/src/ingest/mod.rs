//! Ingestion of telemetry: formats, normalisation and the rules of the handlers.

pub mod error;
pub mod handler;
pub mod hex;
pub mod json_decoder;
pub mod json_laws;
pub mod laws;
pub mod normalizer;
pub mod otlp;
