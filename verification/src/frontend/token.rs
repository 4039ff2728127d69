//! The tokens of the language.

use crate::display::decimal::{decimal_text, push_signed_decimal};
use crate::display::text::push_char;
use vstd::prelude::*;
use vstd::string::StringExecFns;

verus! {

/// A token of the source text.
#[derive(Debug, PartialEq)]
pub enum Token<'i> {
    /// A left parenthesis.
    LParen,
    /// A right parenthesis.
    RParen,
    /// An integer literal.
    Integer(i64),
    /// A symbol: an identifier, or one of the operators `+` and `-`. It
    /// borrows its text from the source.
    Symbol(&'i str),
}

/// The mathematical value of a [`Token`].
pub enum TokenView {
    LParen,
    RParen,
    Integer(int),
    Symbol(Seq<char>),
}

impl<'i> View for Token<'i> {
    type V = TokenView;

    open spec fn view(&self) -> TokenView {
        match self {
            Token::LParen => TokenView::LParen,
            Token::RParen => TokenView::RParen,
            Token::Integer(i) => TokenView::Integer(*i as int),
            Token::Symbol(s) => TokenView::Symbol(s@),
        }
    }
}

/// The text of a token: a parenthesis, the decimal notation of an integer, or
/// the text of a symbol.
pub open spec fn token_text(token: TokenView) -> Seq<char> {
    match token {
        TokenView::LParen => seq!['('],
        TokenView::RParen => seq![')'],
        TokenView::Integer(i) => decimal_text(i),
        TokenView::Symbol(s) => s,
    }
}

impl<'i> Token<'i> {
    /// Renders the token as text.
    pub fn to_string(&self) -> (text: String)
        ensures
            text@ == token_text(self@),
    {
        let mut text = String::new();
        match self {
            Token::LParen => {
                push_char(&mut text, '(');
            },
            Token::RParen => {
                push_char(&mut text, ')');
            },
            Token::Integer(i) => {
                push_signed_decimal(&mut text, *i);
            },
            Token::Symbol(s) => {
                text.append(s);
            },
        }
        text
    }
}

} // verus!
