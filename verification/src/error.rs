//! The errors that the database reports.

use std::convert::Infallible;
use vstd::prelude::*;

verus! {

/// What went wrong.
#[derive(Debug)]
pub enum ErrorKind {
    /// An error that is described by its message alone.
    Message(String),
    /// A tree name holds a character other than an ASCII letter, an ASCII digit,
    /// `-`, `.` or `_`, or is the name that the transaction log keeps for itself.
    InvalidTreeName,
    /// The file of the tree was compacted after it had been opened.
    TreeCompacted,
    /// The file of the tree does not exist.
    FileNotFound,
    /// The value does not fit where it was to be stored.
    ValueTooLarge,
    /// The file of the tree was written under another vault.
    VaultMismatch,
    /// The file of the tree was written as a tree of another kind.
    KindMismatch,
    /// A transaction was asked for that names a tree twice.
    TreeNamedTwice,
    /// Another transaction holds the tree. The call can be repeated once that
    /// transaction has ended.
    TreeLocked,
    /// A channel was closed while it was still needed.
    InternalCommunication,
}

impl ErrorKind {
    /// Whether this is the error for a file that does not exist.
    pub fn is_file_not_found(&self) -> (result: bool)
        ensures
            result == (*self is FileNotFound),
    {
        match self {
            ErrorKind::FileNotFound => true,
            _ => false,
        }
    }

    /// Whether this is the error for a file that was compacted while it was open.
    pub fn is_tree_compacted(&self) -> (result: bool)
        ensures
            result == (*self is TreeCompacted),
    {
        match self {
            ErrorKind::TreeCompacted => true,
            _ => false,
        }
    }
}

/// An error from the database.
#[derive(Debug)]
pub struct Error {
    pub kind: ErrorKind,
}

impl From<ErrorKind> for Error {
    fn from(kind: ErrorKind) -> (error: Error) {
        Error { kind }
    }
}

impl vstd::std_specs::convert::FromSpecImpl<ErrorKind> for Error {
    open spec fn obeys_from_spec() -> bool {
        true
    }

    open spec fn from_spec(kind: ErrorKind) -> Error {
        Error { kind }
    }
}

impl From<String> for Error {
    fn from(message: String) -> (error: Error) {
        Error { kind: ErrorKind::Message(message) }
    }
}

impl vstd::std_specs::convert::FromSpecImpl<String> for Error {
    open spec fn obeys_from_spec() -> bool {
        true
    }

    open spec fn from_spec(message: String) -> Error {
        Error { kind: ErrorKind::Message(message) }
    }
}

/// An error returned from `compare_and_swap()`.
#[derive(Debug)]
pub enum CompareAndSwapError {
    /// The stored value did not match the conditional value.
    Conflict(Option<Vec<u8>>),
    /// Another error occurred while executing the operation.
    Error(Error),
}

impl From<Error> for CompareAndSwapError {
    fn from(error: Error) -> (result: CompareAndSwapError) {
        CompareAndSwapError::Error(error)
    }
}

impl vstd::std_specs::convert::FromSpecImpl<Error> for CompareAndSwapError {
    open spec fn obeys_from_spec() -> bool {
        true
    }

    open spec fn from_spec(error: Error) -> CompareAndSwapError {
        CompareAndSwapError::Error(error)
    }
}

/// An error that could come from the caller's own code or from the database.
#[derive(Debug)]
pub enum AbortError<CallerError = Infallible> {
    /// An error unrelated to the database occurred.
    Other(CallerError),
    /// An error from the database occurred.
    Nebari(Error),
}

impl<CallerError> From<Error> for AbortError<CallerError> {
    fn from(error: Error) -> (result: AbortError<CallerError>) {
        AbortError::Nebari(error)
    }
}

impl<CallerError> vstd::std_specs::convert::FromSpecImpl<Error> for AbortError<CallerError> {
    open spec fn obeys_from_spec() -> bool {
        true
    }

    open spec fn from_spec(error: Error) -> AbortError<CallerError> {
        AbortError::Nebari(error)
    }
}

impl AbortError<Infallible> {
    /// Unwraps the error contained within an infallible abort error. No other kind
    /// of abort error can be built: the caller's error type has no value.
    #[must_use]
    pub fn infallible(self) -> (error: Error)
        requires
            self is Nebari,
        ensures
            self == AbortError::<Infallible>::Nebari(error),
    {
        match self {
            AbortError::Other(_) => vstd::pervasive::unreached(),
            AbortError::Nebari(error) => error,
        }
    }
}

} // verus!
