//! Errors reported by the index builder.
use vstd::prelude::*;

verus! {

/// What went wrong.
#[derive(Debug, PartialEq, Eq)]
pub enum ErrorKind {
    /// A message that explains the error it is chained onto.
    Msg(String),
    /// A query could not be understood.
    InvalidQuery,
    /// A record is not well formed: its quotes, braces or brackets do not pair up.
    InvalidRecord,
}

/// An error of the index builder: its kind, and the kind of the error it was chained onto,
/// if any.
#[derive(Debug, PartialEq, Eq)]
pub struct Error {
    kind: ErrorKind,
    cause: Option<ErrorKind>,
}

/// The message chained onto the error of a brace or bracket that closes with nothing open.
pub open spec fn unopened_message() -> Seq<char> {
    "s.pop()"@
}

/// The message chained onto the error of a brace or bracket that closes what the other
/// kind opened.
pub open spec fn mismatch_message() -> Seq<char> {
    "invalid bracket/brace"@
}

impl Error {
    /// An error of the given kind, chained onto nothing.
    pub fn from_kind(kind: ErrorKind) -> (e: Error)
        ensures
            e.spec_kind() == kind,
            e.spec_cause() == None::<ErrorKind>,
    {
        Error { kind, cause: None }
    }

    /// An error with message `msg` chained onto this one.
    pub fn chain(self, msg: String) -> (e: Error)
        ensures
            e.spec_kind() == ErrorKind::Msg(msg),
            e.spec_cause() == Some(self.spec_kind()),
    {
        Error { kind: ErrorKind::Msg(msg), cause: Some(self.kind) }
    }

    /// The kind of this error.
    pub closed spec fn spec_kind(&self) -> ErrorKind {
        self.kind
    }

    /// The kind of the error this one is chained onto.
    pub closed spec fn spec_cause(&self) -> Option<ErrorKind> {
        self.cause
    }

    /// The kind of this error.
    pub fn kind(&self) -> (k: &ErrorKind)
        ensures
            *k == self.spec_kind(),
    {
        &self.kind
    }

    /// The kind of the error this one is chained onto.
    pub fn cause(&self) -> (c: &Option<ErrorKind>)
        ensures
            *c == self.spec_cause(),
    {
        &self.cause
    }
}

} // verus!
