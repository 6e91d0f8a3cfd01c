//! A scanner that turns source text into positioned tokens.
pub mod laws;
pub mod model;
pub mod scan;
pub mod text;
pub mod token;
pub mod tokenizer;

pub use token::{LexError, Token, TokenKind};
pub use tokenizer::{
    capture_indentation, lex, skip_whitespace, tokenize_ident, tokenize_number,
    tokenize_single_token,
};
