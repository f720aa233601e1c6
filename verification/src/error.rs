//! Parse failures.

use vstd::prelude::*;

verus! {

/// What went wrong.
#[derive(Clone, Copy, Debug, PartialEq, Eq, Structural)]
pub enum ErrorKind {
    /// The expected syntactic form does not begin at this position.
    StructuralMismatch,
    /// An opening delimiter was found, but the buffer ends before a valid
    /// closing delimiter. A streaming caller may supply more input.
    UnterminatedLiteral,
    /// The delimiters matched, but the bytes between them are not UTF-8.
    InvalidEncoding,
    /// The buffer ends inside the body of an attribute set.
    UnclosedAttrSet,
    /// Attribute sets are nested more deeply than the caller allows.
    NestingTooDeep,
}

/// A failure in the mathematical model: its kind and the offset, counted
/// from the start of the parsed buffer, at which it was detected.
pub struct Failure {
    pub kind: ErrorKind,
    pub offset: int,
}

/// A failure as returned to callers.
#[derive(Clone, Copy, Debug, PartialEq, Eq, Structural)]
pub struct ParseError {
    pub kind: ErrorKind,
    pub offset: usize,
}

impl View for ParseError {
    type V = Failure;

    open spec fn view(&self) -> Failure {
        Failure { kind: self.kind, offset: self.offset as int }
    }
}

impl Failure {
    /// The same failure seen from a buffer that starts `by` bytes earlier.
    pub open spec fn shifted(self, by: int) -> Failure {
        Failure { kind: self.kind, offset: self.offset + by }
    }
}

/// The failure of the given kind at the given offset.
pub open spec fn failure(kind: ErrorKind, offset: int) -> Failure {
    Failure { kind, offset }
}

impl ParseError {
    /// A failure of the given kind at the given offset.
    pub fn new(kind: ErrorKind, offset: usize) -> (e: ParseError)
        ensures
            e@ == failure(kind, offset as int),
    {
        ParseError { kind, offset }
    }

    /// The kind of this failure.
    pub fn kind(&self) -> (k: ErrorKind)
        ensures
            k == self.kind,
    {
        self.kind
    }

    /// The byte offset at which this failure was detected.
    pub fn offset(&self) -> (o: usize)
        ensures
            o == self.offset,
    {
        self.offset
    }
}

} // verus!
