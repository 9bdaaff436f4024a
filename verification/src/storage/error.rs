//! Errors of the storage layer.

use crate::text::{decimal, hex_digits, push_decimal, push_hex};
use vstd::prelude::*;

verus! {

/// What can go wrong in the storage layer. Errors of the file system and of the
/// columnar file format are carried as their messages.
#[derive(Debug)]
pub enum StorageError {
    Io(String),
    WalCrcMismatch { offset: u64, expected: u32, actual: u32 },
    WalTruncated(u64),
    Serialisation(String),
    Arrow(String),
    Parquet(String),
    PartitionNotFound(String),
    Closed,
    Compaction(String),
}

/// The text of an error.
pub open spec fn storage_error_text(e: StorageError) -> Seq<char> {
    match e {
        StorageError::Io(m) => "io error: "@ + m@,
        StorageError::WalCrcMismatch { offset, expected, actual } => "wal crc mismatch at offset "@
            + decimal(offset as nat) + ": expected 0x"@ + hex_digits(expected as nat, 8)
            + ", got 0x"@ + hex_digits(actual as nat, 8),
        StorageError::WalTruncated(offset) => "wal entry truncated at offset "@ + decimal(
            offset as nat,
        ),
        StorageError::Serialisation(m) => "serialisation error: "@ + m@,
        StorageError::Arrow(m) => "arrow error: "@ + m@,
        StorageError::Parquet(m) => "parquet error: "@ + m@,
        StorageError::PartitionNotFound(m) => "partition not found: "@ + m@,
        StorageError::Closed => "engine is closed"@,
        StorageError::Compaction(m) => "compaction error: "@ + m@,
    }
}

impl StorageError {
    /// The error as a text for people.
    pub fn message(&self) -> (out: String)
        ensures
            out@ == storage_error_text(*self),
    {
        let mut out = String::new();
        match self {
            StorageError::Io(m) => {
                out.append("io error: ");
                out.append(m.as_str());
            },
            StorageError::WalCrcMismatch { offset, expected, actual } => {
                out.append("wal crc mismatch at offset ");
                push_decimal(&mut out, *offset);
                out.append(": expected 0x");
                push_hex(&mut out, *expected as u64, 8);
                out.append(", got 0x");
                push_hex(&mut out, *actual as u64, 8);
            },
            StorageError::WalTruncated(offset) => {
                out.append("wal entry truncated at offset ");
                push_decimal(&mut out, *offset);
            },
            StorageError::Serialisation(m) => {
                out.append("serialisation error: ");
                out.append(m.as_str());
            },
            StorageError::Arrow(m) => {
                out.append("arrow error: ");
                out.append(m.as_str());
            },
            StorageError::Parquet(m) => {
                out.append("parquet error: ");
                out.append(m.as_str());
            },
            StorageError::PartitionNotFound(m) => {
                out.append("partition not found: ");
                out.append(m.as_str());
            },
            StorageError::Closed => {
                out.append("engine is closed");
            },
            StorageError::Compaction(m) => {
                out.append("compaction error: ");
                out.append(m.as_str());
            },
        }
        assert(out@ =~= storage_error_text(*self));
        out
    }
}

} // verus!
