//! The error type shared by every module that reads databases or stores.

use vstd::prelude::*;

verus! {

/// What an operation ran into.
#[derive(Clone, Copy, Debug, PartialEq, Eq, Structural)]
pub enum ErrorKind {
    /// The bytes at hand are not what their format demands.
    InvalidData,
    /// The operation was asked for something that it refuses to do.
    Other,
}

/// A failure, with the sentence that is shown to the user.
#[derive(Clone, Debug, PartialEq, Eq)]
pub struct Error {
    pub kind: ErrorKind,
    pub message: String,
}

/// The mathematical value of an [`Error`].
#[verifier::ext_equal]
pub struct ErrorView {
    pub kind: ErrorKind,
    pub message: Seq<char>,
}

impl View for Error {
    type V = ErrorView;

    open spec fn view(&self) -> ErrorView {
        ErrorView { kind: self.kind, message: self.message@ }
    }
}

/// The error for malformed data, saying `message`.
pub open spec fn invalid_data(message: Seq<char>) -> ErrorView {
    ErrorView { kind: ErrorKind::InvalidData, message }
}

/// The error for a refused request, saying `message`.
pub open spec fn refused(message: Seq<char>) -> ErrorView {
    ErrorView { kind: ErrorKind::Other, message }
}

impl Error {
    /// Makes the error for malformed data.
    pub fn invalid_data(message: String) -> (e: Error)
        ensures
            e@ == invalid_data(message@),
    {
        Error { kind: ErrorKind::InvalidData, message }
    }

    /// Makes the error for a refused request.
    pub fn refused(message: String) -> (e: Error)
        ensures
            e@ == refused(message@),
    {
        Error { kind: ErrorKind::Other, message }
    }

    /// The sentence that is shown to the user.
    pub fn message(&self) -> (s: String)
        ensures
            s@ == self@.message,
    {
        self.message.clone()
    }
}

} // verus!
