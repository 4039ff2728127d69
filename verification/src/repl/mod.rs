//! Evaluation of programs, and the replies of the interactive loop.

pub mod env;
pub mod line;

use crate::ast::{render, Object, Value};
use crate::display::location::{column_of, line_of, location_text, Location};
use crate::frontend::lexer::{items_from, Lexer};
use crate::frontend::offsets::{same_text, utf8_len};
use crate::frontend::parser::{
    parse_error_text, parse_program_of, ParseError, ParseErrorView, Parser,
};
use crate::repl::env::Env;
use crate::repl::line::{trim, trimmed};
use vstd::prelude::*;
use vstd::string::{StringExecFns, StringSliceAdditionalSpecFns};

verus! {

/// An evaluator: a program and the environment that it runs in.
pub struct Evaluator<'i> {
    /// The program to evaluate.
    ast: Object<'i>,
    /// The environment of the program.
    env: Env<'i>,
}

impl<'i> Evaluator<'i> {
    /// The value of the program.
    pub closed spec fn program(&self) -> Value {
        self.ast@
    }

    /// The environment of the program.
    pub closed spec fn env(&self) -> Env<'i> {
        self.env
    }

    /// An evaluator for `ast` in an empty environment.
    pub fn new(ast: Object<'i>) -> (evaluator: Self)
        ensures
            evaluator.program() == ast@,
            evaluator.env().bindings().len() == 0,
            !evaluator.env().nested(),
    {
        Evaluator { ast, env: Env::new() }
    }

    /// Evaluates the program. Every program evaluates to `Void`.
    pub fn eval(&self) -> (result: Object<'i>)
        ensures
            result@ == Value::Void,
    {
        Object::Void
    }
}

/// The byte offset that a parse error is reported at: where the item that it
/// is about begins, or the end of the source for an unexpected end.
pub open spec fn fault_offset(source: Seq<char>, error: ParseErrorView) -> nat {
    match error {
        ParseErrorView::UnexpectedEndOfFile => utf8_len(source),
        ParseErrorView::LexerError(error) => error.begin,
        ParseErrorView::UnexpectedToken(token) => token.begin,
    }
}

/// The report of a parse error in `source`: the location of the fault, with
/// an empty path, and the message of the error.
pub open spec fn report_text(source: Seq<char>, error: ParseErrorView) -> Seq<char> {
    let bytes = vstd::utf8::encode_utf8(source);
    let offset = fault_offset(source, error) as int;
    "Error: "@ + location_text(
        Seq::empty(),
        line_of(bytes, offset),
        column_of(bytes, offset) as nat,
    ) + ": "@ + parse_error_text(error) + "."@
}

/// Parses and evaluates `source`. A program that parses gives the text of its
/// value, and one that does not gives the report of its first error.
pub fn eval(source: &str) -> (answer: Result<String, String>)
    requires
        source.spec_bytes().len() < usize::MAX,
    ensures
        match parse_program_of(items_from(source@, 0), Seq::empty()).0 {
            Ok(_) => answer matches Ok(text) && text@ == render(Value::Void),
            Err(error) => answer matches Err(text) && text@ == report_text(source@, error),
        },
{
    let lexer = Lexer::new(source);
    let mut parser = Parser::new(lexer);
    match parser.parse() {
        Err(error) => {
            let offset = match &error {
                ParseError::UnexpectedEndOfFile => source.len(),
                ParseError::LexerError(error) => error.begin,
                ParseError::UnexpectedToken(token) => token.begin,
            };
            let location = Location::new("", source, offset);
            let mut text = String::new();
            text.append("Error: ");
            let place = location.to_string();
            text.append(place.as_str());
            text.append(": ");
            let message = error.to_string();
            text.append(message.as_str());
            text.append(".");
            proof {
                reveal_strlit("");
            }
            Err(text)
        },
        Ok(ast) => {
            let evaluator = Evaluator::new(ast);
            let result = evaluator.eval();
            Ok(result.to_string())
        },
    }
}

/// What the loop does with a line of input.
#[derive(Debug, PartialEq)]
pub enum Reply {
    /// Leave the loop.
    Exit,
    /// Print the text of a value.
    Print(String),
    /// Complain with the text of an error.
    Complain(String),
}

/// Whether `line` asks to leave the loop: it is the word `exit`, with
/// nothing but white space around it.
pub open spec fn asks_to_exit(line: Seq<char>) -> bool {
    trimmed(line) == "exit"@
}

/// The reply to a line of input. The word `exit` ends the loop. Any other
/// line is evaluated if it is ASCII, and refused if it is not.
pub fn respond(line: &str) -> (reply: Reply)
    requires
        line.spec_bytes().len() < usize::MAX,
    ensures
        if asks_to_exit(line@) {
            reply is Exit
        } else if !vstd::utf8::is_ascii_chars(line@) {
            reply matches Reply::Complain(text) && text@
                == "Error: Input must contain only valid ascii characters."@
        } else {
            match parse_program_of(items_from(line@, 0), Seq::empty()).0 {
                Ok(_) => reply matches Reply::Print(text) && text@ == render(Value::Void),
                Err(error) => reply matches Reply::Complain(text) && text@ == report_text(
                    line@,
                    error,
                ),
            }
        },
{
    if same_text(trim(line), "exit") {
        Reply::Exit
    } else if !line.is_ascii() {
        Reply::Complain(
            String::from_str("Error: Input must contain only valid ascii characters."),
        )
    } else {
        match eval(line) {
            Ok(text) => Reply::Print(text),
            Err(text) => Reply::Complain(text),
        }
    }
}

} // verus!
