//! Errors of the gitalong library.
use vstd::prelude::*;

verus! {

/// Errors surfaced by the gitalong library. Each carries a message, or the
/// path it is about.
#[derive(Debug, Clone, PartialEq, Eq)]
pub enum Error {
    /// No `.gitalong.json` was found at the given path.
    NotSetup(String),
    /// `.gitalong.json` could not be parsed or holds an invalid value.
    InvalidConfig(String),
    /// The store could not be reached.
    StoreUnreachable(String),
    /// A filesystem or subprocess failure.
    Io(String),
    /// A JSON encoding or decoding failure.
    Json(String),
    /// A git operation failed.
    Git(String),
    /// Any other failure of a command, with its message.
    Message(String),
}

} // verus!
