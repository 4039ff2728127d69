//! The parser: from the tokens of the lexer to a value.

use crate::ast::{values_of, Object, Value};
use crate::display::text::push_char;
use crate::frontend::lexer::{
    lex_error_text, Item, LexError, LexErrorView, Lexer, Located, LocatedView,
};
use crate::frontend::token::{token_text, Token, TokenView};
use vstd::prelude::*;
use vstd::string::StringExecFns;

verus! {

/// Why a source text is not a program.
#[derive(Debug, PartialEq)]
pub enum ParseError<'i> {
    /// The source ended inside a list.
    UnexpectedEndOfFile,
    /// The lexer found an error, which is passed on as it is.
    LexerError(Located<LexError<'i>>),
    /// A token stands where none of its kind may stand: outside every list,
    /// anything but a left parenthesis.
    UnexpectedToken(Located<Token<'i>>),
}

/// The mathematical value of a [`ParseError`].
pub enum ParseErrorView {
    UnexpectedEndOfFile,
    LexerError(LocatedView<LexErrorView>),
    UnexpectedToken(LocatedView<TokenView>),
}

impl<'i> View for ParseError<'i> {
    type V = ParseErrorView;

    open spec fn view(&self) -> ParseErrorView {
        match self {
            ParseError::UnexpectedEndOfFile => ParseErrorView::UnexpectedEndOfFile,
            ParseError::LexerError(error) => ParseErrorView::LexerError(error@),
            ParseError::UnexpectedToken(token) => ParseErrorView::UnexpectedToken(token@),
        }
    }
}

/// The message of a parse error.
pub open spec fn parse_error_text(error: ParseErrorView) -> Seq<char> {
    match error {
        ParseErrorView::UnexpectedEndOfFile => "Unexpected end of file."@,
        ParseErrorView::LexerError(error) => "Lexical error: "@ + lex_error_text(error.value),
        ParseErrorView::UnexpectedToken(token) => "Unexpected token: '"@ + token_text(token.value)
            + seq!['\u{27}'],
    }
}

impl<'i> ParseError<'i> {
    /// Renders the error as a message.
    pub fn to_string(&self) -> (text: String)
        ensures
            text@ == parse_error_text(self@),
    {
        let mut text = String::new();
        match self {
            ParseError::UnexpectedEndOfFile => {
                text.append("Unexpected end of file.");
            },
            ParseError::LexerError(error) => {
                text.append("Lexical error: ");
                let message = error.value.to_string();
                text.append(message.as_str());
            },
            ParseError::UnexpectedToken(token) => {
                text.append("Unexpected token: '");
                let spelled = token.value.to_string();
                text.append(spelled.as_str());
                push_char(&mut text, '\u{27}');
            },
        }
        text
    }
}

/// What parsing yields: a value or an error.
pub type Outcome = Result<Value, ParseErrorView>;

/// The mathematical value of what the parser returns.
pub open spec fn outcome_view<'i>(result: Result<Object<'i>, ParseError<'i>>) -> Outcome {
    match result {
        Ok(object) => Ok(object@),
        Err(error) => Err(error@),
    }
}

/// The list that `items` continue after the values `acc` of it have been
/// read, and the items that follow it. The list ends at the first right
/// parenthesis that does not close a list inside it; a left parenthesis opens
/// a list inside it. The first lexical error ends the parse, and so does the
/// end of the items; what is left of the items then follows the item that
/// the error is about.
///
/// A list inside it always leaves fewer items than it was read from
/// ([`lemma_parse_list_consumes`]); the test for that only shows that the
/// definition is well founded.
pub open spec fn parse_list_of(items: Seq<Item>, acc: Seq<Value>) -> (Outcome, Seq<Item>)
    decreases items.len(),
{
    if items.len() == 0 {
        (Err(ParseErrorView::UnexpectedEndOfFile), items)
    } else {
        let rest = items.drop_first();
        match items[0] {
            Err(error) => (Err(ParseErrorView::LexerError(error)), rest),
            Ok(token) => match token.value {
                TokenView::RParen => (Ok(Value::List(acc)), rest),
                TokenView::Symbol(text) => parse_list_of(rest, acc.push(Value::Symbol(text))),
                TokenView::Integer(value) => parse_list_of(rest, acc.push(Value::Integer(value))),
                TokenView::LParen => {
                    let (inner, after) = parse_list_of(rest, Seq::empty());
                    match inner {
                        Ok(child) if after.len() < items.len() => parse_list_of(
                            after,
                            acc.push(child),
                        ),
                        _ => (inner, after),
                    }
                },
            },
        }
    }
}

/// The value of a program with the top-level lists `forms`: nothing, the one
/// list, or the list of them.
pub open spec fn program_of(forms: Seq<Value>) -> Value {
    if forms.len() == 0 {
        Value::Void
    } else if forms.len() == 1 {
        forms[0]
    } else {
        Value::List(forms)
    }
}

/// The program that `items` continue after its top-level lists `forms` have
/// been read, and the items that are left when the parse ends. Outside every
/// list only a left parenthesis may stand: any other token there is
/// unexpected.
pub open spec fn parse_program_of(items: Seq<Item>, forms: Seq<Value>) -> (Outcome, Seq<Item>)
    decreases items.len(),
{
    if items.len() == 0 {
        (Ok(program_of(forms)), items)
    } else {
        let rest = items.drop_first();
        match items[0] {
            Err(error) => (Err(ParseErrorView::LexerError(error)), rest),
            Ok(token) => match token.value {
                TokenView::LParen => {
                    let (inner, after) = parse_list_of(rest, Seq::empty());
                    match inner {
                        Ok(form) if after.len() < items.len() => parse_program_of(
                            after,
                            forms.push(form),
                        ),
                        _ => (inner, after),
                    }
                },
                _ => (Err(ParseErrorView::UnexpectedToken(token)), rest),
            },
        }
    }
}

/// A list takes at least its closing parenthesis: what follows it is shorter
/// than what it was read from, and is a tail of it.
pub proof fn lemma_parse_list_consumes(items: Seq<Item>, acc: Seq<Value>)
    ensures
        parse_list_of(items, acc).1.len() <= items.len(),
        parse_list_of(items, acc).0 is Ok ==> parse_list_of(items, acc).1.len() < items.len(),
        parse_list_of(items, acc).1 == items.skip(
            items.len() - parse_list_of(items, acc).1.len(),
        ),
    decreases items.len(),
{
    if items.len() > 0 {
        let rest = items.drop_first();
        match items[0] {
            Err(error) => {},
            Ok(token) => match token.value {
                TokenView::RParen => {},
                TokenView::Symbol(text) => {
                    lemma_parse_list_consumes(rest, acc.push(Value::Symbol(text)));
                },
                TokenView::Integer(value) => {
                    lemma_parse_list_consumes(rest, acc.push(Value::Integer(value)));
                },
                TokenView::LParen => {
                    lemma_parse_list_consumes(rest, Seq::empty());
                    let (inner, after) = parse_list_of(rest, Seq::empty());
                    if let Ok(child) = inner {
                        lemma_parse_list_consumes(after, acc.push(child));
                    }
                },
            },
        }
    }
}

/// Adding an object to a vector adds its value to the values.
proof fn lemma_values_push<'i>(before: &Vec<Object<'i>>, after: &Vec<Object<'i>>, last: Object<'i>)
    requires
        after@ == before@.push(last),
    ensures
        values_of(after) == values_of(before).push(last@),
{
}

/// A parser: a lexer, and the rules by which its tokens form a value.
pub struct Parser<'i> {
    /// The lexer that the tokens come from.
    lexer: Lexer<'i>,
}

impl<'i> Parser<'i> {
    /// All that the lexer has yet to yield, in order.
    pub closed spec fn remaining(&self) -> Seq<Item> {
        self.lexer.remaining()
    }

    /// A parser that reads what `lexer` has yet to yield.
    pub fn new(lexer: Lexer<'i>) -> (parser: Parser<'i>)
        ensures
            parser.remaining() == lexer.remaining(),
    {
        Parser { lexer }
    }

    /// Parses a program: any number of lists. No list gives `Void`, one list
    /// gives that list, more give the list of them. The first error ends the
    /// parse; the lexer then stands behind the item that the error is about.
    pub fn parse(&mut self) -> (result: Result<Object<'i>, ParseError<'i>>)
        ensures
            outcome_view(result) == parse_program_of(old(self).remaining(), Seq::empty()).0,
            final(self).remaining() == parse_program_of(old(self).remaining(), Seq::empty()).1,
    {
        let ghost all = self.remaining();
        let mut lists: Vec<Object<'i>> = Vec::new();
        proof {
            assert(values_of(&lists) =~= Seq::<Value>::empty());
        }
        loop
            invariant
                all == old(self).remaining(),
                parse_program_of(all, Seq::empty()) == parse_program_of(
                    self.remaining(),
                    values_of(&lists),
                ),
            decreases self.remaining().len(),
        {
            let ghost items = self.remaining();
            match self.lexer.next() {
                None => {
                    return Ok(Self::program(lists));
                },
                Some(Err(error)) => {
                    return Err(ParseError::LexerError(error));
                },
                Some(Ok(located)) => {
                    match located.value {
                        Token::LParen => {
                            proof {
                                lemma_parse_list_consumes(items.drop_first(), Seq::empty());
                            }
                            match self.parse_list() {
                                Ok(object) => {
                                    let ghost before = lists;
                                    lists.push(object);
                                    proof {
                                        lemma_values_push(&before, &lists, object);
                                    }
                                },
                                Err(error) => {
                                    return Err(error);
                                },
                            }
                        },
                        _ => {
                            return Err(ParseError::UnexpectedToken(located));
                        },
                    }
                },
            }
        }
    }

    /// The value of a program with the top-level lists `lists`.
    fn program(lists: Vec<Object<'i>>) -> (object: Object<'i>)
        ensures
            object@ == program_of(values_of(&lists)),
    {
        let mut lists = lists;
        let ghost forms = values_of(&lists);
        if lists.len() == 0 {
            Object::Void
        } else if lists.len() == 1 {
            match lists.pop() {
                Some(object) => object,
                None => Object::Void,
            }
        } else {
            let result = Object::List(lists);
            proof {
                assert(result@->List_0 =~= forms);
            }
            result
        }
    }

    /// Parses the rest of a list whose left parenthesis has been read, up to
    /// and including its right parenthesis. The first error ends the parse;
    /// the lexer then stands behind the item that the error is about.
    pub fn parse_list(&mut self) -> (result: Result<Object<'i>, ParseError<'i>>)
        ensures
            outcome_view(result) == parse_list_of(old(self).remaining(), Seq::empty()).0,
            final(self).remaining() == parse_list_of(old(self).remaining(), Seq::empty()).1,
        decreases old(self).remaining().len(),
    {
        let ghost all = self.remaining();
        let mut list: Vec<Object<'i>> = Vec::new();
        proof {
            assert(values_of(&list) =~= Seq::<Value>::empty());
        }
        loop
            invariant
                all == old(self).remaining(),
                self.remaining().len() <= all.len(),
                parse_list_of(all, Seq::empty()) == parse_list_of(
                    self.remaining(),
                    values_of(&list),
                ),
            decreases self.remaining().len(),
        {
            let ghost items = self.remaining();
            let ghost before = list;
            match self.lexer.next() {
                None => {
                    return Err(ParseError::UnexpectedEndOfFile);
                },
                Some(Err(error)) => {
                    return Err(ParseError::LexerError(error));
                },
                Some(Ok(token)) => {
                    match token.value {
                        Token::LParen => {
                            proof {
                                lemma_parse_list_consumes(items.drop_first(), Seq::empty());
                            }
                            match self.parse_list() {
                                Ok(object) => {
                                    list.push(object);
                                    proof {
                                        lemma_values_push(&before, &list, object);
                                    }
                                },
                                Err(error) => {
                                    return Err(error);
                                },
                            }
                        },
                        Token::Symbol(text) => {
                            let object = Object::Symbol(text);
                            list.push(object);
                            proof {
                                lemma_values_push(&before, &list, object);
                            }
                        },
                        Token::Integer(value) => {
                            let object = Object::Integer(value);
                            list.push(object);
                            proof {
                                lemma_values_push(&before, &list, object);
                            }
                        },
                        Token::RParen => {
                            let ghost children = values_of(&list);
                            let result = Object::List(list);
                            proof {
                                assert(result@->List_0 =~= children);
                            }
                            return Ok(result);
                        },
                    }
                },
            }
        }
    }
}

} // verus!
