//! Tokens and the ways a scan can fail.
use vstd::prelude::*;

verus! {

/// The lexical category of a token, with the data intrinsic to it.
#[derive(Debug, Clone, PartialEq)]
pub enum TokenKind {
    /// A run of alphanumeric or underscore characters not starting with a digit.
    Identifier(String),
    /// A decimal literal: digits with at most one decimal point, as written.
    Number(String),
    /// The text between two double quotes, quotes excluded.
    QuotedString(String),
    /// The byte width of the white space that begins a new line, newline included.
    Indentation(u8),
    Asterisk,
    Equals,
    Plus,
    Slash,
    LessThan,
    GreaterThan,
    Minus,
    Colon,
    At,
    Dot,
    CloseParen,
    CloseSquare,
    OpenParen,
    OpenSquare,
    Semicolon,
}

/// A token with its position: 1-based row, and the half-open, 1-based byte
/// columns that it occupies on that row.
#[derive(Debug, Clone, PartialEq)]
pub struct Token {
    pub kind: TokenKind,
    pub column_start: usize,
    pub column_end: usize,
    pub row: usize,
}

/// Why a scan stopped.
#[derive(Debug, Clone, Copy, PartialEq, Eq, Structural)]
pub enum LexError {
    /// Input ran out where a character was required.
    UnexpectedEndOfInput,
    /// An identifier was asked for where the text starts with a digit.
    InvalidLeadingDigit,
    /// A number was asked for where the text holds no digit to read.
    NumericParseFailure,
    /// A line's leading white space is wider than 255 bytes.
    IndentationOverflow,
    /// The next character begins no token.
    UnrecognizedCharacter,
}

} // verus!
