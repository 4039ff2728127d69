//! Rendering and parsing are inverse to each other on the lists that can be
//! written in source text.

use crate::ast::{render, render_joined, Value};
use crate::display::decimal::decimal_digits;
use crate::frontend::chars::{is_alphabetic, is_digit, is_symbol_char, is_whitespace};
use crate::frontend::lexer::{
    decimal_value, digits, items_from, lemma_run_end, lemma_scan_advances, located, scan,
    symbol_chars, Item,
};
use crate::frontend::offsets::offset_of;
use crate::frontend::parser::{
    lemma_parse_list_consumes, parse_list_of, parse_program_of, ParseErrorView,
};
use crate::frontend::token::TokenView;
use vstd::prelude::*;

verus! {

/// Whether `text` is the text of a symbol: one of the operators `+` and `-`,
/// or an alphabetic character that is not white space, followed by
/// alphanumeric characters and underscores.
pub open spec fn is_symbol_text(text: Seq<char>) -> bool {
    ||| text == seq!['+']
    ||| text == seq!['-']
    ||| {
        &&& text.len() > 0
        &&& is_alphabetic(text[0])
        &&& !is_whitespace(text[0])
        &&& forall|i: int| 1 <= i < text.len() ==> is_symbol_char(#[trigger] text[i])
    }
}

/// Whether `value` can be written in source text: a symbol, an integer that
/// is not negative, or a list of such values.
pub open spec fn is_written(value: Value) -> bool
    decreases value,
{
    match value {
        Value::Symbol(text) => is_symbol_text(text),
        Value::Integer(i) => 0 <= i <= i64::MAX,
        Value::List(items) => forall|k: int|
            0 <= k < items.len() ==> is_written(#[trigger] items[k]),
        _ => false,
    }
}

/// Whether `source` holds `text` at index `at`.
pub open spec fn holds_at(source: Seq<char>, at: int, text: Seq<char>) -> bool {
    &&& 0 <= at
    &&& at + text.len() <= source.len()
    &&& source.subrange(at, at + text.len()) == text
}

/// Whether a lexeme that ends at `end` is followed by what ends it in a
/// rendered text: a space, a right parenthesis, or the end of the source.
pub open spec fn delimited(source: Seq<char>, end: int) -> bool {
    end == source.len() || source[end] == ' ' || source[end] == ')'
}

/// The decimal notation of a number is a run of digits with that value.
pub proof fn lemma_decimal_round_trip(n: nat)
    ensures
        decimal_digits(n).len() > 0,
        forall|i: int| 0 <= i < decimal_digits(n).len() ==> is_digit(#[trigger] decimal_digits(n)[i]),
        decimal_value(decimal_digits(n)) == n,
    decreases n,
{
    if n < 10 {
        assert(decimal_value(decimal_digits(n).drop_last()) == 0);
    } else {
        lemma_decimal_round_trip(n / 10);
        assert(decimal_digits(n).drop_last() =~= decimal_digits(n / 10));
    }
}

/// A part of a text that the source holds is held at its place.
proof fn lemma_holds_part(source: Seq<char>, at: int, text: Seq<char>, i: int, j: int)
    requires
        holds_at(source, at, text),
        0 <= i <= j <= text.len(),
    ensures
        holds_at(source, at + i, text.subrange(i, j)),
        forall|k: int| 0 <= k < text.len() ==> source[at + k] == #[trigger] text[k],
{
    assert(source.subrange(at + i, at + j) =~= source.subrange(at, at + text.len()).subrange(
        i,
        j,
    ));
}

/// What the lexer yields starts with the item that it scans.
proof fn lemma_items_step(source: Seq<char>, at: int)
    requires
        0 <= at <= source.len(),
    ensures
        match scan(source, at) {
            Some((item, next)) => {
                &&& items_from(source, at).len() > 0
                &&& items_from(source, at)[0] == item
                &&& items_from(source, at).drop_first() == items_from(source, next)
                &&& at < next <= source.len()
            },
            None => items_from(source, at).len() == 0,
        },
{
    lemma_scan_advances(source, at);
}

/// A space before a lexeme changes nothing of what the lexer yields.
proof fn lemma_skip_space(source: Seq<char>, at: int)
    requires
        0 <= at < source.len(),
        source[at] == ' ',
    ensures
        items_from(source, at) == items_from(source, at + 1),
{
}

/// Inside a list a parenthesis, a symbol or an integer that is written at
/// `at` is read as one token that ends where its text ends.
proof fn lemma_scan_written(source: Seq<char>, at: int, text: Seq<char>, token: TokenView)
    requires
        holds_at(source, at, text),
        match token {
            TokenView::LParen => text == seq!['('],
            TokenView::RParen => text == seq![')'],
            TokenView::Symbol(name) => text == name && is_symbol_text(name) && delimited(
                source,
                at + text.len(),
            ),
            TokenView::Integer(i) => 0 <= i <= i64::MAX && text == decimal_digits(i as nat)
                && delimited(source, at + text.len()),
        },
    ensures
        scan(source, at) == Some(
            (
                located(
                    offset_of(source, at),
                    offset_of(source, at + text.len()),
                    Ok(token),
                ),
                at + text.len(),
            ),
        ),
{
    let end = at + text.len();
    if let TokenView::Integer(i) = token {
        lemma_decimal_round_trip(i as nat);
    }
    let c = source[at];
    assert(c == text[0]);
    match token {
        TokenView::LParen => {},
        TokenView::RParen => {},
        TokenView::Symbol(name) => {
            if text != seq!['+'] && text != seq!['-'] {
                assert forall|i: int| at + 1 <= i < end implies symbol_chars()(
                    #[trigger] source[i],
                ) by {
                    assert(source[i] == text[i - at]);
                }
                lemma_run_end(source, at + 1, end, symbol_chars());
            }
        },
        TokenView::Integer(i) => {
            assert forall|i: int| at + 1 <= i < end implies digits()(#[trigger] source[i]) by {
                assert(source[i] == text[i - at]);
            }
            lemma_run_end(source, at + 1, end, digits());
        },
    }
}

/// The text of the first `k` items is the start of the text of the first `n`,
/// and a space follows it there if it is not empty and not the whole.
proof fn lemma_joined_prefix(items: Seq<Value>, k: nat, n: nat)
    requires
        k <= n <= items.len(),
    ensures
        render_joined(items, k).len() <= render_joined(items, n).len(),
        render_joined(items, n).subrange(0, render_joined(items, k).len() as int) == render_joined(
            items,
            k,
        ),
        1 <= k < n ==> render_joined(items, n)[render_joined(items, k).len() as int] == ' ',
        k < n ==> render_joined(items, n).len() >= render_joined(items, k).len() + (if k
            == 0 {
            0int
        } else {
            1int
        }) + render(items[k as int]).len(),
        k < n ==> render_joined(items, n).subrange(
            render_joined(items, k).len() + (if k == 0 {
                0int
            } else {
                1int
            }),
            render_joined(items, k).len() + (if k == 0 {
                0int
            } else {
                1int
            }) + render(items[k as int]).len(),
        ) == render(items[k as int]),
    decreases n - k,
{
    if k + 1 < n {
        lemma_joined_prefix(items, k, (n - 1) as nat);
    }
}

/// Inside a list, a written value whose text stands at `at` is read as the
/// next item of the list.
proof fn lemma_read_value(source: Seq<char>, at: int, value: Value, acc: Seq<Value>)
    requires
        is_written(value),
        holds_at(source, at, render(value)),
        delimited(source, at + render(value).len()),
    ensures
        parse_list_of(items_from(source, at), acc) == parse_list_of(
            items_from(source, at + render(value).len()),
            acc.push(value),
        ),
    decreases value, 0nat,
{
    match value {
        Value::Symbol(name) => {
            lemma_scan_written(source, at, name, TokenView::Symbol(name));
            lemma_items_step(source, at);
        },
        Value::Integer(i) => {
            lemma_scan_written(source, at, decimal_digits(i as nat), TokenView::Integer(i));
            lemma_items_step(source, at);
        },
        Value::List(children) => {
            lemma_read_list(source, at, children);
            lemma_items_step(source, at);
            lemma_parse_list_consumes(items_from(source, at + 1), Seq::empty());
        },
        _ => {},
    }
}

/// A list of written values whose text stands at `at` is read as a left
/// parenthesis and the rest of a list with these values.
proof fn lemma_read_list(source: Seq<char>, at: int, children: Seq<Value>)
    requires
        is_written(Value::List(children)),
        holds_at(source, at, render(Value::List(children))),
    ensures
        scan(source, at) == Some(
            (
                located(offset_of(source, at), offset_of(source, at + 1), Ok(TokenView::LParen)),
                at + 1,
            ),
        ),
        parse_list_of(items_from(source, at + 1), Seq::empty()) == (
            Ok::<Value, ParseErrorView>(Value::List(children)),
            items_from(source, at + render(Value::List(children)).len()),
        ),
    decreases children, children.len() + 1,
{
    let text = render(Value::List(children));
    let joined = render_joined(children, children.len());
    let close = at + 1 + joined.len();
    lemma_holds_part(source, at, text, 0, 1);
    assert(text.subrange(0, 1) =~= seq!['(']);
    lemma_scan_written(source, at, seq!['('], TokenView::LParen);
    lemma_holds_part(source, at, text, 1, text.len() as int);
    assert(text.subrange(1, text.len() as int) =~= joined + seq![')']);
    lemma_read_items(source, at + 1, children, children.len());
    assert(children.take(children.len() as int) =~= children);
    lemma_holds_part(source, at, text, text.len() - 1, text.len() as int);
    assert(text.subrange(text.len() - 1, text.len() as int) =~= seq![')']);
    lemma_scan_written(source, close, seq![')'], TokenView::RParen);
}

/// After the first `k` values of a list have been read, the rest of the list
/// is read from behind their text.
proof fn lemma_read_items(source: Seq<char>, first: int, children: Seq<Value>, k: nat)
    requires
        is_written(Value::List(children)),
        holds_at(source, first, render_joined(children, children.len()) + seq![')']),
        k <= children.len(),
    ensures
        parse_list_of(items_from(source, first), Seq::empty()) == parse_list_of(
            items_from(source, first + render_joined(children, k).len()),
            children.take(k as int),
        ),
    decreases children, k,
{
    if k == 0 {
        assert(children.take(0) =~= Seq::<Value>::empty());
    } else {
        let n = children.len();
        let j = (k - 1) as nat;
        let child = children[j as int];
        let whole = render_joined(children, n);
        let text = whole + seq![')'];
        let gap = if j == 0 {
            0int
        } else {
            1int
        };
        let before = first + render_joined(children, j).len();
        let start = before + gap;
        let end = start + render(child).len();
        lemma_read_items(source, first, children, j);
        lemma_joined_prefix(children, j, n);
        lemma_joined_prefix(children, k, n);
        lemma_holds_part(source, first, text, start - first, end - first);
        assert(text.subrange(start - first, end - first) =~= whole.subrange(
            start - first,
            end - first,
        ));
        if j >= 1 {
            assert(source[before] == text[before - first]);
            lemma_skip_space(source, before);
        }
        assert(delimited(source, end)) by {
            assert(source[end] == text[end - first]);
        }
        assert(is_written(child)) by {
            assert(Value::List(children)->List_0 == children);
        }
        lemma_read_value(source, start, child, children.take(j as int));
        assert(children.take(j as int).push(child) =~= children.take(k as int));
    }
}

/// Parsing inverts rendering, and rendering inverts parsing on canonical
/// text: the text of a list that can be written in source text is lexed and
/// parsed to that list, with nothing left over, and so the text of what is
/// parsed from it is that text again.
pub proof fn lemma_render_parse_round_trip(value: Value)
    requires
        value is List,
        is_written(value),
    ensures
        parse_program_of(items_from(render(value), 0), Seq::empty()) == (
            Ok::<Value, ParseErrorView>(value),
            Seq::<Item>::empty(),
        ),
        parse_program_of(items_from(render(value), 0), Seq::empty()).0 matches Ok(parsed)
            && render(parsed) == render(value),
{
    let source = render(value);
    let children = value->List_0;
    assert(source.subrange(0, source.len() as int) =~= source);
    lemma_read_list(source, 0, children);
    lemma_items_step(source, 0);
    let after = items_from(source, source.len() as int);
    let forms = Seq::<Value>::empty().push(value);
    assert(parse_program_of(after, forms) == (
        Ok::<Value, ParseErrorView>(value),
        after,
    ));
}

} // verus!
