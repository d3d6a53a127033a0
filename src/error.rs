use vstd::prelude::*;

verus! {

/// What went wrong while parsing an export.
#[derive(Clone, Copy, Debug, PartialEq, Eq, Structural)]
pub enum ParseErrorKind {
    /// The bracketed `[dd.mm.yy, H:M:S]` token is missing, misshapen or not a real instant.
    MalformedTimestamp,
    /// No non-empty name ended by `:` stands before the end of the line.
    MalformedParticipant,
    /// A timestamp was read, but no sender followed by `": "` came after it.
    MalformedEntry,
    /// A line without a timestamp has no preceding text entry to join.
    StructuralContinuation,
    /// Bytes are left that no line of the grammar consumes.
    TrailingInput,
    /// A span that becomes a string is not valid UTF-8.
    Encoding,
}

/// A parse failure: its kind and the byte offset where it was found.
#[derive(Clone, Copy, Debug, PartialEq, Eq, Structural)]
pub struct ParseError {
    pub kind: ParseErrorKind,
    pub offset: usize,
}

/// The error of kind `kind` at offset `offset`.
pub open spec fn error_at(kind: ParseErrorKind, offset: int) -> ParseError {
    ParseError { kind, offset: offset as usize }
}

/// `e` moved `by` bytes further into the input.
pub open spec fn shifted(e: ParseError, by: int) -> ParseError {
    error_at(e.kind, e.offset + by)
}

} // verus!
