//! The parse-time error taxonomy: every way a byte buffer can fail to
//! tokenize, as a typed value.

use vstd::prelude::*;

verus! {

/// An error produced while tokenizing a byte buffer into a syntax tree.
#[derive(Debug)]
pub enum ParseError {
    /// The buffer held nothing but whitespace.
    CannotParseEmpty,
    /// The buffer began with a close parenthesis that no open parenthesis matches.
    MissingLeftParenthesis,
    /// A list was opened but the buffer ended before its close parenthesis.
    MissingRightParenthesis,
    /// Reserved in the taxonomy; never produced by the tokenizer itself.
    EmptyExpression,
    /// An atom held one of the characters `(`, `)`, `"` or `'`.
    ForbiddenCharInSymbol(char),
    /// A caller expected a single fully-consumed expression and got something else.
    NotAnSExpression,
    /// An atom began with a digit or `-` but its full text is not a signed integer.
    CannotParseNumber(String),
    /// A string was opened with `"` but never closed.
    MissingDoubleQuote,
    /// A closing `"` was not followed by end of buffer, whitespace, or `)`.
    StringDidntEnd,
}

/// The mathematical value of a [`ParseError`]: the same variants over
/// `Seq<char>` instead of heap-allocated text.
pub enum ParseErrorView {
    CannotParseEmpty,
    MissingLeftParenthesis,
    MissingRightParenthesis,
    EmptyExpression,
    ForbiddenCharInSymbol(char),
    NotAnSExpression,
    CannotParseNumber(Seq<char>),
    MissingDoubleQuote,
    StringDidntEnd,
}

impl View for ParseError {
    type V = ParseErrorView;

    open spec fn view(&self) -> ParseErrorView {
        match self {
            ParseError::CannotParseEmpty => ParseErrorView::CannotParseEmpty,
            ParseError::MissingLeftParenthesis => ParseErrorView::MissingLeftParenthesis,
            ParseError::MissingRightParenthesis => ParseErrorView::MissingRightParenthesis,
            ParseError::EmptyExpression => ParseErrorView::EmptyExpression,
            ParseError::ForbiddenCharInSymbol(c) => ParseErrorView::ForbiddenCharInSymbol(*c),
            ParseError::NotAnSExpression => ParseErrorView::NotAnSExpression,
            ParseError::CannotParseNumber(text) => ParseErrorView::CannotParseNumber(text@),
            ParseError::MissingDoubleQuote => ParseErrorView::MissingDoubleQuote,
            ParseError::StringDidntEnd => ParseErrorView::StringDidntEnd,
        }
    }
}

} // verus!
