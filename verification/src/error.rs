//! What a failed parse reports.

use vstd::prelude::*;
use crate::NomErrorWrap;

verus! {

/// The recognizer that could not match.
#[derive(Debug, PartialEq, Eq, Clone, Copy)]
pub enum ErrorKind {
    /// A fixed byte sequence was expected.
    Tag,
    /// The `:` after a field name was expected.
    Char,
    /// The byte that ends a name, a line or a comment does not occur.
    TakeUntil,
    /// A field name is empty or begins with a line feed.
    Verify,
    /// Input is left where it should have ended.
    Eof,
}

/// The mathematical value of a syntax error: the input that was left where the
/// grammar could not match, and the recognizer that gave up.
pub struct SyntaxError {
    pub input: Seq<u8>,
    pub code: ErrorKind,
}

/// Why a text could not be parsed.
#[derive(Debug, PartialEq, Eq, Clone)]
pub enum ParseError {
    /// The text does not follow the grammar.
    Syntax(NomErrorWrap),
    /// A field name or a value is not valid UTF-8.
    Encoding,
}

/// The mathematical value of a [`ParseError`].
pub enum ParseErrorView {
    Syntax(SyntaxError),
    Encoding,
}

impl View for ParseError {
    type V = ParseErrorView;

    open spec fn view(&self) -> ParseErrorView {
        match self {
            ParseError::Syntax(e) => ParseErrorView::Syntax(e@),
            ParseError::Encoding => ParseErrorView::Encoding,
        }
    }
}

} // verus!
