use lisp::ast::Object;
use lisp::repl::env::Env;
use lisp::repl::line::trim;
use lisp::repl::{eval, respond, Evaluator, Reply};

#[test]
fn test_env() {
    let env = Env::new();
    assert!(env.is_empty());
    assert!(!env.has_parent());
}

#[test]
fn test_new() {
    let evaluator = Evaluator::new(Object::Void);
    let result = evaluator.eval();
    assert_eq!(result, Object::Void);
}

#[test]
fn eval_of_any_program_is_void() {
    let evaluator = Evaluator::new(Object::List(vec![Object::Symbol("+"), Object::Integer(1)]));
    assert_eq!(evaluator.eval(), Object::Void);
}

#[test]
fn eval_source_that_parses() {
    assert_eq!(eval("(+ 1 2)"), Ok(String::from("Void")));
    assert_eq!(eval(""), Ok(String::from("Void")));
}

#[test]
fn eval_reports_the_place_of_the_error() {
    assert_eq!(eval("(+ 1"), Err(String::from("Error: :1:5: Unexpected end of file..")));
    assert_eq!(eval("(a)\n  )"), Err(String::from("Error: :2:3: Unexpected token: ')'.")));
    assert_eq!(
        eval("(a\n(b ?))"),
        Err(String::from("Error: :2:4: Lexical error: Unexpected character: '?'."))
    );
    assert_eq!(
        eval("(a 99999999999999999999)"),
        Err(String::from(
            "Error: :1:4: Lexical error: Invalid integer literal: '99999999999999999999'."
        ))
    );
    assert_eq!(eval("(a\n"), Err(String::from("Error: :1:1: Unexpected end of file..")));
    assert_eq!(eval("(a\n "), Err(String::from("Error: :2:2: Unexpected end of file..")));
}

#[test]
fn respond_to_exit() {
    assert_eq!(respond("exit"), Reply::Exit);
    assert_eq!(respond("  exit\n"), Reply::Exit);
    assert_eq!(respond("\u{a0}exit\u{2003}\r\n"), Reply::Exit);
}

#[test]
fn respond_to_what_only_looks_like_exit() {
    assert_eq!(
        respond("exit exit\n"),
        Reply::Complain(String::from("Error: :1:1: Unexpected token: 'exit'."))
    );
    assert_eq!(
        respond("exits\n"),
        Reply::Complain(String::from("Error: :1:1: Unexpected token: 'exits'."))
    );
    assert_eq!(
        respond("exit)\n"),
        Reply::Complain(String::from("Error: :1:1: Unexpected token: 'exit'."))
    );
}

#[test]
fn respond_refuses_text_beyond_ascii() {
    assert_eq!(
        respond("(\u{e9})\n"),
        Reply::Complain(String::from("Error: Input must contain only valid ascii characters."))
    );
}

#[test]
fn respond_evaluates_other_lines() {
    assert_eq!(respond("(+ 1 2)\n"), Reply::Print(String::from("Void")));
    assert_eq!(respond("\n"), Reply::Print(String::from("Void")));
    assert_eq!(
        respond("(+ 1\n"),
        Reply::Complain(String::from("Error: :1:1: Unexpected end of file.."))
    );
}

#[test]
fn trim_removes_white_space_around() {
    assert_eq!(trim("  a b \n"), "a b");
    assert_eq!(trim("a"), "a");
    assert_eq!(trim(""), "");
    assert_eq!(trim(" \t\r\n"), "");
    assert_eq!(trim("\u{a0}\u{e9} x\u{3000}"), "\u{e9} x");
    assert_eq!(trim("(+ 1 2)"), "(+ 1 2)");
}

#[test]
fn trim_agrees_with_the_standard_library() {
    for line in ["", " ", "exit", " exit ", "\texit\n", "a  b", " \u{2003}a\u{2003} ", "\n\n", "x \u{b}"] {
        assert_eq!(trim(line), line.trim());
    }
}
