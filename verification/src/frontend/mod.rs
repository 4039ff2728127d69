//! From source text to values: character classes, tokens, the lexer and the
//! parser.

pub mod chars;
pub mod offsets;
pub mod token;
pub mod lexer;
pub mod parser;
pub mod nesting;
pub mod round_trip;
