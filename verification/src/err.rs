//! The single error type of the library core, mapped to HTTP categories by
//! the surrounding server.
use vstd::prelude::*;

verus! {

/// Category of a core failure; the HTTP layer maps each to a status code.
#[derive(Debug, Clone, Copy, PartialEq, Eq, Structural)]
pub enum ErrorKind {
    /// Failed validation of a format, range or required field.
    BadInput,
    /// A lookup by id or hash found nothing.
    NotFound,
    /// A uniqueness rule was violated.
    Conflict,
    /// A database or transport failure; the caller may retry.
    Dependency,
    /// A store invariant does not hold; not retryable.
    Integrity,
}

/// A core error: a category and a human-readable message.
#[derive(Debug, Clone, Copy)]
pub struct CoreError {
    pub kind: ErrorKind,
    pub message: &'static str,
}

impl CoreError {
    pub fn new(kind: ErrorKind, message: &'static str) -> (r: Self)
        ensures
            r.kind == kind,
            r.message == message,
    {
        CoreError { kind, message }
    }

    pub fn bad_input(message: &'static str) -> (r: Self)
        ensures
            r.kind == ErrorKind::BadInput,
    {
        CoreError { kind: ErrorKind::BadInput, message }
    }

    pub fn kind(&self) -> (k: ErrorKind)
        ensures
            k == self.kind,
    {
        self.kind
    }

    pub fn message(&self) -> (m: &'static str)
        ensures
            m == self.message,
    {
        self.message
    }
}

} // verus!
