//! Lexical analysis for an indentation-sensitive language: source text in,
//! a sequence of positioned tokens out.
//!
//! The grammar is stated as spec functions in `grammar`; the scanners in
//! `scan` and the lexer in `lexer` are proved to follow it.
pub mod chars;
pub mod grammar;
pub mod lexer;
pub mod position;
pub mod scan;
pub mod token;

pub use lexer::Lexer;
pub use token::{LexError, Token, TokenType};
