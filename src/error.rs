//! The library's error type.
use vstd::prelude::*;

verus! {

/// What went wrong in an operation on the log.
#[derive(Debug)]
pub enum TlError {
    Io(String),
    Config(String),
    State(String),
    Parse(String),
    DuplicateId(String),
    TaskNotFound(String),
    Lock(String),
    NotInitialized,
    Other(String),
}

} // verus!
