use lisp::ast::Object;
use lisp::frontend::lexer::{LexError, Lexer, Located};
use lisp::frontend::parser::{ParseError, Parser};
use lisp::frontend::token::Token;

fn parse(source: &str) -> Result<Object<'_>, ParseError<'_>> {
    Parser::new(Lexer::new(source)).parse()
}

#[test]
fn test_parse() {
    let source = "(+ 1 2)";
    let lexer = Lexer::new(source);
    let mut parser = Parser::new(lexer);
    let res = parser.parse();
    assert_eq!(
        res,
        Ok(Object::List(vec![Object::Symbol("+"), Object::Integer(1), Object::Integer(2),])),
    );
}

#[test]
fn test_parse_list() {
    let source = "+ 1 2)";
    let lexer = Lexer::new(source);
    let mut parser = Parser::new(lexer);
    let res = parser.parse_list();
    assert_eq!(
        res,
        Ok(Object::List(vec![Object::Symbol("+"), Object::Integer(1), Object::Integer(2),])),
    );
}

#[test]
fn test_parser() {
    let source = "(define (plus_one x) (+ x 1))";
    let lexer = Lexer::new(&source);
    let mut parser = Parser::new(lexer);

    let expr = parser.parse().unwrap();

    assert_eq!(expr.to_string(), "(define (plus_one x) (+ x 1))");
}

#[test]
fn scenario_simple_sum() {
    let parsed = parse("(+ 1 2)").unwrap();
    assert_eq!(
        parsed,
        Object::List(vec![Object::Symbol("+"), Object::Integer(1), Object::Integer(2)])
    );
    assert_eq!(parsed.to_string(), "(+ 1 2)");
}

#[test]
fn scenario_unterminated_list() {
    assert_eq!(parse("(+ 1"), Err(ParseError::UnexpectedEndOfFile));
}

#[test]
fn scenario_excess_right_parenthesis() {
    assert_eq!(
        parse(")"),
        Err(ParseError::UnexpectedToken(Located { begin: 0, end: 1, value: Token::RParen }))
    );
}

#[test]
fn scenario_integer_overflow() {
    assert_eq!(
        parse("(a 99999999999999999999)"),
        Err(ParseError::LexerError(Located {
            begin: 3,
            end: 23,
            value: LexError::IntegerParseError("99999999999999999999"),
        }))
    );
}

#[test]
fn parse_empty_program_is_void() {
    assert_eq!(parse(""), Ok(Object::Void));
    assert_eq!(parse("  \n\t "), Ok(Object::Void));
}

#[test]
fn parse_one_form_is_not_wrapped() {
    assert_eq!(parse("()"), Ok(Object::List(vec![])));
    assert_eq!(parse(" ( a ) "), Ok(Object::List(vec![Object::Symbol("a")])));
}

#[test]
fn parse_several_forms_are_wrapped() {
    assert_eq!(
        parse("(a) (1 2) ()"),
        Ok(Object::List(vec![
            Object::List(vec![Object::Symbol("a")]),
            Object::List(vec![Object::Integer(1), Object::Integer(2)]),
            Object::List(vec![]),
        ]))
    );
}

#[test]
fn parse_nested_lists() {
    assert_eq!(
        parse("((a (b)) c)"),
        Ok(Object::List(vec![
            Object::List(vec![Object::Symbol("a"), Object::List(vec![Object::Symbol("b")])]),
            Object::Symbol("c"),
        ]))
    );
}

#[test]
fn parse_top_level_atoms_are_unexpected() {
    assert_eq!(
        parse("x"),
        Err(ParseError::UnexpectedToken(Located { begin: 0, end: 1, value: Token::Symbol("x") }))
    );
    assert_eq!(
        parse("(a) 12"),
        Err(ParseError::UnexpectedToken(Located { begin: 4, end: 6, value: Token::Integer(12) }))
    );
    assert_eq!(
        parse("(a))"),
        Err(ParseError::UnexpectedToken(Located { begin: 3, end: 4, value: Token::RParen }))
    );
}

#[test]
fn parse_first_error_wins() {
    assert_eq!(
        parse("(a $ ("),
        Err(ParseError::LexerError(Located {
            begin: 3,
            end: 4,
            value: LexError::UnexpectedCharacter('$'),
        }))
    );
    assert_eq!(
        parse("$ )"),
        Err(ParseError::LexerError(Located {
            begin: 0,
            end: 1,
            value: LexError::UnexpectedCharacter('$'),
        }))
    );
    assert_eq!(
        parse(") $"),
        Err(ParseError::UnexpectedToken(Located { begin: 0, end: 1, value: Token::RParen }))
    );
    assert_eq!(parse("((a) (b"), Err(ParseError::UnexpectedEndOfFile));
}

#[test]
fn parse_list_stops_behind_its_parenthesis() {
    let mut parser = Parser::new(Lexer::new("a (b)) (c)"));
    assert_eq!(
        parser.parse_list(),
        Ok(Object::List(vec![Object::Symbol("a"), Object::List(vec![Object::Symbol("b")])]))
    );
    assert_eq!(parser.parse(), Ok(Object::List(vec![Object::Symbol("c")])));
    assert_eq!(parser.parse(), Ok(Object::Void));
}

#[test]
fn parse_list_without_tokens() {
    let mut parser = Parser::new(Lexer::new(""));
    assert_eq!(parser.parse_list(), Err(ParseError::UnexpectedEndOfFile));
}

#[test]
fn parse_round_trips_canonical_text() {
    for source in [
        "()",
        "(a)",
        "(+ 1 2)",
        "(define (plus_one x) (+ x 1))",
        "((())) ",
        "(- 0 9223372036854775807 (x_1 y2) ())",
        "(\u{e9}t\u{e9} b)",
    ] {
        let canonical = source.trim_end();
        assert_eq!(parse(canonical).unwrap().to_string(), canonical);
    }
}

#[test]
fn parse_error_messages() {
    assert_eq!(ParseError::UnexpectedEndOfFile.to_string(), "Unexpected end of file.");
    assert_eq!(
        parse("(a ?)").unwrap_err().to_string(),
        "Lexical error: Unexpected character: '?'"
    );
    assert_eq!(
        parse("(a 99999999999999999999)").unwrap_err().to_string(),
        "Lexical error: Invalid integer literal: '99999999999999999999'"
    );
    assert_eq!(parse("(a) b").unwrap_err().to_string(), "Unexpected token: 'b'");
    assert_eq!(parse(")").unwrap_err().to_string(), "Unexpected token: ')'");
    assert_eq!(parse("17").unwrap_err().to_string(), "Unexpected token: '17'");
}

#[test]
fn parse_deep_nesting() {
    let depth = 200;
    let mut source = String::new();
    for _ in 0..depth {
        source.push('(');
    }
    for _ in 0..depth {
        source.push(')');
    }
    let parsed = parse(&source).unwrap();
    assert_eq!(parsed.to_string(), source);
}

/// What a scan with a depth counter expects of a text over parentheses,
/// the symbol `a` and spaces: `None` for success, or the kind of the fault
/// and the offset of the token that it is about.
fn expected_fault(source: &str) -> Option<(bool, usize)> {
    let mut depth = 0usize;
    for (offset, c) in source.char_indices() {
        match c {
            '(' => depth += 1,
            ')' if depth > 0 => depth -= 1,
            ' ' => {}
            _ if depth > 0 => {}
            _ => return Some((false, offset)),
        }
    }
    if depth > 0 {
        Some((true, source.len()))
    } else {
        None
    }
}

#[test]
fn parse_succeeds_exactly_on_balanced_parentheses() {
    let alphabet = ['(', ')', 'a', ' '];
    let mut sources = vec![String::new()];
    let mut from = 0;
    for _ in 0..6 {
        let upto = sources.len();
        for i in from..upto {
            for c in alphabet {
                let mut longer = sources[i].clone();
                longer.push(c);
                sources.push(longer);
            }
        }
        from = upto;
    }
    assert_eq!(sources.len(), 5461);
    for source in &sources {
        let source = source.replace("aa", "a a");
        match (parse(&source), expected_fault(&source)) {
            (Ok(_), None) => {}
            (Err(ParseError::UnexpectedEndOfFile), Some((true, _))) => {}
            (Err(ParseError::UnexpectedToken(token)), Some((false, offset))) => {
                assert_eq!(token.begin, offset, "in {:?}", source);
            }
            (result, expected) => panic!("{:?}: {:?} against {:?}", source, result, expected),
        }
    }
}
