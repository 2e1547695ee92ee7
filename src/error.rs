//! Errors reported by the lexer and the expression parser.
use vstd::prelude::*;

verus! {

/// Which stage of the parser gave up.
#[derive(Debug, Clone, Copy, PartialEq, Eq, Structural)]
pub enum ParseErrorKind {
    /// An atom could not be read.
    Nom,
    /// An operator was expected.
    Op,
    /// A word was read where a keyword was expected, but it is none of them.
    Keywords,
}

/// What exactly did not match.
#[derive(Debug, Clone, Copy, PartialEq, Eq, Structural)]
pub enum ErrorCode {
    /// The expected literal text was not there.
    Tag,
    /// A number was expected, or it does not fit in 64 bits.
    Digit,
    /// A clock time has more than three fields, or more than three
    /// fractional digits.
    Count,
    /// An operator is not followed by an atom.
    Escaped,
}

/// A parse failure anchored in the source text.
#[derive(Debug, Clone, Copy, PartialEq, Eq, Structural)]
pub struct ParseError {
    /// Byte offset where the failed attempt began.
    pub offset: usize,
    /// Number of bytes read before the failure.
    pub length: usize,
    /// What did not match.
    pub source: ErrorCode,
    /// Which stage failed.
    pub kind: ParseErrorKind,
}

} // verus!
