//! Errors of the store.

use vstd::prelude::*;

verus! {

#[verifier::external_type_specification]
#[verifier::external_body]
pub struct ExIoError(std::io::Error);

/// What can go wrong in an operation of the store.
#[derive(Debug)]
pub enum KvError {
    /// The file system or device failed.
    Io(std::io::Error),
    /// Kept for callers that report absence as an error; the store itself
    /// reports it as `None`.
    KeyNotFound,
    /// The log holds a record with an unknown tag or a truncated record.
    InvalidFormat,
    /// The store was closed.
    DbClosed,
}

/// The description of each kind of error.
pub open spec fn error_text(e: &KvError) -> Seq<char> {
    match e {
        KvError::Io(_) => "IO error"@,
        KvError::KeyNotFound => "Key not found"@,
        KvError::InvalidFormat => "Invalid data format"@,
        KvError::DbClosed => "Database is closed"@,
    }
}

impl KvError {
    /// A short description of the error.
    pub fn message(&self) -> (r: String)
        ensures
            r@ == error_text(self),
    {
        match self {
            KvError::Io(_) => String::from_str("IO error"),
            KvError::KeyNotFound => String::from_str("Key not found"),
            KvError::InvalidFormat => String::from_str("Invalid data format"),
            KvError::DbClosed => String::from_str("Database is closed"),
        }
    }
}

} // verus!
