//! Error taxonomy of the parser.
//!
//! Every failure carries a kind and the character offset at which the parser
//! stood when it gave up; the first error aborts the whole parse.

use vstd::prelude::*;

verus! {

/// What went wrong during a parse.
#[derive(Clone, Copy, Debug, PartialEq, Eq, Structural)]
pub enum ErrorKind {
    /// The dispatch character starts no grammar rule.
    UnexpectedChar,
    /// A value was expected but the input ended.
    UnexpectedEnd,
    /// One of the literals `true`, `false` or `null` was begun but not matched.
    ExpectedLiteral,
    /// A `:` was expected between an object key and its value.
    ExpectedColon,
    /// A number needs at least one digit after an optional minus sign.
    ExpectedNumberDigit,
    /// A `\u` escape needs exactly four hex digits.
    BadHexDigit,
    /// A raw control character stood inside a string body.
    UnallowedControlChar,
    /// A backslash was followed by a character that names no escape.
    UnknownEscape,
}

/// A parse failure: its kind and the character offset where it arose.
#[derive(Clone, Copy, Debug, PartialEq, Eq, Structural)]
pub struct ParseError {
    pub kind: ErrorKind,
    pub at: usize,
}

/// The fixed description of each error kind.
pub open spec fn spec_message(k: ErrorKind) -> Seq<char> {
    match k {
        ErrorKind::UnexpectedChar => "Unexpected char"@,
        ErrorKind::UnexpectedEnd => "Unexpected end of input"@,
        ErrorKind::ExpectedLiteral => "Expected a literal"@,
        ErrorKind::ExpectedColon => "Expected :"@,
        ErrorKind::ExpectedNumberDigit => "Expected a number"@,
        ErrorKind::BadHexDigit => "Expected 4 hex digits"@,
        ErrorKind::UnallowedControlChar => "Unallowed control char"@,
        ErrorKind::UnknownEscape => "Unknown escape"@,
    }
}

impl ParseError {
    /// A human-readable description of the failure.
    pub fn message(&self) -> (m: &'static str)
        ensures
            m@ == spec_message(self.kind),
    {
        match self.kind {
            ErrorKind::UnexpectedChar => "Unexpected char",
            ErrorKind::UnexpectedEnd => "Unexpected end of input",
            ErrorKind::ExpectedLiteral => "Expected a literal",
            ErrorKind::ExpectedColon => "Expected :",
            ErrorKind::ExpectedNumberDigit => "Expected a number",
            ErrorKind::BadHexDigit => "Expected 4 hex digits",
            ErrorKind::UnallowedControlChar => "Unallowed control char",
            ErrorKind::UnknownEscape => "Unknown escape",
        }
    }
}

} // verus!
