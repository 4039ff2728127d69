//! A position-tracking front end for a small parenthesized language.
//!
//! Source text is scanned into located tokens, the tokens are assembled into a
//! tree of [`ast::Object`] values, and byte offsets of tokens and errors can be
//! turned into line and column numbers by [`display::location::Location`].

pub mod ast;
pub mod display;
pub mod frontend;
pub mod repl;
