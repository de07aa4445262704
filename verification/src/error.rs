use vstd::prelude::*;

verus! {

/// The reason a parse was abandoned.
#[derive(Debug, Clone, Copy, PartialEq, Eq, Structural)]
pub enum ErrorKind {
    /// The input ran out where a value was expected.
    EndOfInput,
    /// The byte does not begin any value.
    UnexpectedToken(u8),
    /// The structural byte that had to come next did not.
    ExpectedDelimiter(u8),
    /// An array element or a boolean literal is not continued properly.
    UnexpectedEnd,
}

/// A failed parse: what went wrong, and the byte offset at which it was noticed.
#[derive(Debug, Clone, Copy, PartialEq, Eq, Structural)]
pub struct JsonError {
    pub kind: ErrorKind,
    pub position: usize,
}

impl JsonError {
    /// Builds the error of the given kind at the given offset.
    pub fn new(kind: ErrorKind, position: usize) -> (error: JsonError)
        ensures
            error.kind == kind,
            error.position == position,
    {
        JsonError { kind, position }
    }
}

} // verus!
