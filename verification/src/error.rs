//! Errors of the knowledge base.

use vstd::prelude::*;
use crate::text::{decimal_digits, usize_decimal};

verus! {

/// Errors that can occur in the knowledge base. Errors raised by outside
/// libraries (serialization, JSON, I/O) are carried by their message.
#[derive(Debug)]
pub enum Error {
    /// Entry not found in the knowledge base.
    NotFound(String),
    /// Invalid embedding dimension.
    DimensionMismatch {
        /// The dimension the operation required.
        expected: usize,
        /// The dimension that was actually provided.
        actual: usize,
    },
    /// Storage backend error.
    Storage(String),
    /// Embedding generation error.
    Embedding(String),
    /// Learning engine error.
    Learning(String),
    /// Serialization error.
    Serialization(String),
    /// JSON serialization error.
    Json(String),
    /// IO error.
    Io(String),
    /// Invalid configuration.
    Config(String),
    /// Index corruption detected.
    IndexCorruption(String),
    /// Concurrent access conflict.
    ConcurrencyConflict(String),
    /// Ingest/parsing error.
    Ingest(String),
}

/// The human-readable message of an error.
pub open spec fn error_message(e: Error) -> Seq<char> {
    match e {
        Error::NotFound(s) => "Entry not found: "@ + s@,
        Error::DimensionMismatch { expected, actual } => "Invalid embedding dimension: expected "@
            + decimal_digits(expected as nat) + ", got "@ + decimal_digits(actual as nat),
        Error::Storage(s) => "Storage error: "@ + s@,
        Error::Embedding(s) => "Embedding error: "@ + s@,
        Error::Learning(s) => "Learning error: "@ + s@,
        Error::Serialization(s) => "Serialization error: "@ + s@,
        Error::Json(s) => "JSON error: "@ + s@,
        Error::Io(s) => "IO error: "@ + s@,
        Error::Config(s) => "Invalid configuration: "@ + s@,
        Error::IndexCorruption(s) => "Index corruption: "@ + s@,
        Error::ConcurrencyConflict(s) => "Concurrent access conflict: "@ + s@,
        Error::Ingest(s) => "Ingest error: "@ + s@,
    }
}

/// `prefix` followed by `text`.
fn prefixed(prefix: &str, text: &String) -> (s: String)
    ensures
        s@ == prefix@ + text@,
{
    String::from_str(prefix).concat(text.as_str())
}

impl Error {
    /// Create a storage error.
    pub fn storage(msg: &str) -> (e: Self)
        ensures
            e matches Error::Storage(m) && m@ == msg@,
    {
        Error::Storage(String::from_str(msg))
    }

    /// Create an embedding error.
    pub fn embedding(msg: &str) -> (e: Self)
        ensures
            e matches Error::Embedding(m) && m@ == msg@,
    {
        Error::Embedding(String::from_str(msg))
    }

    /// Create a learning error.
    pub fn learning(msg: &str) -> (e: Self)
        ensures
            e matches Error::Learning(m) && m@ == msg@,
    {
        Error::Learning(String::from_str(msg))
    }

    /// Create a not found error.
    pub fn not_found(id: &str) -> (e: Self)
        ensures
            e matches Error::NotFound(m) && m@ == id@,
    {
        Error::NotFound(String::from_str(id))
    }

    /// Create a config error.
    pub fn config(msg: &str) -> (e: Self)
        ensures
            e matches Error::Config(m) && m@ == msg@,
    {
        Error::Config(String::from_str(msg))
    }

    /// Create an ingest error.
    pub fn ingest(msg: &str) -> (e: Self)
        ensures
            e matches Error::Ingest(m) && m@ == msg@,
    {
        Error::Ingest(String::from_str(msg))
    }

    /// The human-readable message of the error.
    pub fn to_string(&self) -> (s: String)
        ensures
            s@ == error_message(*self),
    {
        match self {
            Error::NotFound(m) => prefixed("Entry not found: ", m),
            Error::DimensionMismatch { expected, actual } => {
                let s = String::from_str("Invalid embedding dimension: expected ");
                let e = usize_decimal(*expected);
                let s = s.concat(e.as_str());
                let s = s.concat(", got ");
                let a = usize_decimal(*actual);
                s.concat(a.as_str())
            },
            Error::Storage(m) => prefixed("Storage error: ", m),
            Error::Embedding(m) => prefixed("Embedding error: ", m),
            Error::Learning(m) => prefixed("Learning error: ", m),
            Error::Serialization(m) => prefixed("Serialization error: ", m),
            Error::Json(m) => prefixed("JSON error: ", m),
            Error::Io(m) => prefixed("IO error: ", m),
            Error::Config(m) => prefixed("Invalid configuration: ", m),
            Error::IndexCorruption(m) => prefixed("Index corruption: ", m),
            Error::ConcurrencyConflict(m) => prefixed("Concurrent access conflict: ", m),
            Error::Ingest(m) => prefixed("Ingest error: ", m),
        }
    }
}

} // verus!
