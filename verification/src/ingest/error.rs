//! Errors of the ingest layer.

use vstd::prelude::*;

verus! {

/// What can go wrong with records that come in. An error of the storage layer is carried as
/// its message.
#[derive(Debug)]
pub enum IngestError {
    BufferFull,
    Storage(String),
    Normalisation(String),
}

/// Whether the sender may try again later.
pub open spec fn is_retriable(e: IngestError) -> bool {
    e is BufferFull
}

/// The text of an error.
pub open spec fn ingest_error_text(e: IngestError) -> Seq<char> {
    match e {
        IngestError::BufferFull => "back-pressure: ingest buffer full"@,
        IngestError::Storage(m) => "storage error: "@ + m@,
        IngestError::Normalisation(m) => "normalisation error: "@ + m@,
    }
}

impl IngestError {
    /// Whether the sender may try again later.
    pub fn is_retriable(&self) -> (yes: bool)
        ensures
            yes == is_retriable(*self),
    {
        match self {
            IngestError::BufferFull => true,
            _ => false,
        }
    }

    /// The error as a text for people.
    pub fn message(&self) -> (out: String)
        ensures
            out@ == ingest_error_text(*self),
    {
        match self {
            IngestError::BufferFull => "back-pressure: ingest buffer full".to_string(),
            IngestError::Storage(m) => {
                let mut out = "storage error: ".to_string();
                out.append(m.as_str());
                out
            },
            IngestError::Normalisation(m) => {
                let mut out = "normalisation error: ".to_string();
                out.append(m.as_str());
                out
            },
        }
    }
}

} // verus!
