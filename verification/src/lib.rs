//! A tolerant JSON-like parser and serializer.
//!
//! Input text is decoded to a sequence of characters and scanned by a
//! [`cursor::Cursor`]; a recursive-descent parser builds an [`ast::Expr`]
//! value tree, which can be rendered back to text.  Every parsing and
//! rendering function is specified against a mathematical model of the
//! grammar, and the round-trip law (rendering a parsed value and parsing it
//! again gives the value back) is proved in [`laws`].

pub mod ast;
pub mod cursor;
pub mod error;
pub mod laws;
pub mod parse;
