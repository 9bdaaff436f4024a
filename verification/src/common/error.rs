//! Errors of the shared types.

use crate::text::{decimal, push_decimal};
use vstd::prelude::*;

verus! {

/// What can go wrong in the shared types. Errors of JSON and of the file system
/// are carried as their messages.
#[derive(Debug)]
pub enum CommonError {
    InvalidSignalType(u8),
    Serialisation(String),
    Io(String),
}

/// The text of an error.
pub open spec fn common_error_text(e: CommonError) -> Seq<char> {
    match e {
        CommonError::InvalidSignalType(b) => "invalid signal type byte: "@ + decimal(b as nat),
        CommonError::Serialisation(m) => "serialisation error: "@ + m@,
        CommonError::Io(m) => "io error: "@ + m@,
    }
}

impl CommonError {
    /// The error as a text for people.
    pub fn message(&self) -> (out: String)
        ensures
            out@ == common_error_text(*self),
    {
        match self {
            CommonError::InvalidSignalType(b) => {
                let mut out = "invalid signal type byte: ".to_string();
                push_decimal(&mut out, *b as u64);
                out
            },
            CommonError::Serialisation(m) => {
                let mut out = "serialisation error: ".to_string();
                out.append(m.as_str());
                out
            },
            CommonError::Io(m) => {
                let mut out = "io error: ".to_string();
                out.append(m.as_str());
                out
            },
        }
    }
}

} // verus!
