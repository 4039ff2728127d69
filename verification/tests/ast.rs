use lisp::ast::Object;

#[test]
fn ast_test_fmt() {
    let obj = Object::Void;
    assert_eq!(obj.to_string(), "Void");

    let obj = Object::Bool(true);
    assert_eq!(obj.to_string(), "true");

    let obj = Object::Integer(42);
    assert_eq!(obj.to_string(), "42");

    let obj = Object::Symbol("foo");
    assert_eq!(obj.to_string(), "foo");

    let obj = Object::List(vec![Object::Integer(1), Object::Integer(2)]);
    assert_eq!(obj.to_string(), "(1 2)");

    let obj = Object::Lambda(vec!["x", "y"], vec![Object::Integer(1), Object::Integer(2)]);
    assert_eq!(obj.to_string(), "(lambda (x y) 1 2)");
}

#[test]
fn render_false() {
    assert_eq!(Object::Bool(false).to_string(), "false");
}

#[test]
fn render_integers_at_the_limits() {
    assert_eq!(Object::Integer(0).to_string(), "0");
    assert_eq!(Object::Integer(-1).to_string(), "-1");
    assert_eq!(Object::Integer(10).to_string(), "10");
    assert_eq!(Object::Integer(-907).to_string(), "-907");
    assert_eq!(Object::Integer(i64::MAX).to_string(), "9223372036854775807");
    assert_eq!(Object::Integer(i64::MIN).to_string(), "-9223372036854775808");
}

#[test]
fn render_empty_and_nested_lists() {
    assert_eq!(Object::List(vec![]).to_string(), "()");
    assert_eq!(Object::List(vec![Object::Symbol("a")]).to_string(), "(a)");
    let nested = Object::List(vec![
        Object::Symbol("define"),
        Object::List(vec![Object::Symbol("plus_one"), Object::Symbol("x")]),
        Object::List(vec![Object::Symbol("+"), Object::Symbol("x"), Object::Integer(1)]),
        Object::List(vec![]),
    ]);
    assert_eq!(nested.to_string(), "(define (plus_one x) (+ x 1) ())");
}

#[test]
fn render_lambda_shapes() {
    let one = Object::Lambda(vec!["x"], vec![Object::Symbol("x")]);
    assert_eq!(one.to_string(), "(lambda (x) x)");
    let none = Object::Lambda(vec![], vec![Object::Integer(7)]);
    assert_eq!(none.to_string(), "(lambda () 7)");
    let inner = Object::Lambda(
        vec!["f"],
        vec![Object::List(vec![Object::Symbol("f"), Object::Bool(true)]), Object::Void],
    );
    assert_eq!(inner.to_string(), "(lambda (f) (f true) Void)");
}

#[test]
fn render_lambda_without_body() {
    assert_eq!(Object::Lambda(vec!["x", "y"], vec![]).to_string(), "(lambda (x y) )");
    assert_eq!(Object::Lambda(vec![], vec![]).to_string(), "(lambda () )");
}

#[test]
fn render_symbol_beyond_ascii() {
    assert_eq!(Object::Symbol("\u{e9}t\u{e9}").to_string(), "\u{e9}t\u{e9}");
}
