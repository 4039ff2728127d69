//! Parsing and the nesting of parentheses: the parser accepts exactly the
//! items whose parentheses balance.

use crate::ast::Value;
use crate::frontend::lexer::Item;
use crate::frontend::parser::{
    lemma_parse_list_consumes, parse_list_of, parse_program_of, ParseErrorView,
};
use crate::frontend::token::TokenView;
use vstd::prelude::*;

verus! {

/// The first fault of `items` when they are read inside `depth` open lists,
/// or `None` if they have none. A lexical error is a fault. Outside every list
/// any token but a left parenthesis is unexpected, a right parenthesis too
/// many among them. Lists that are still open at the end are a fault of the
/// end.
pub open spec fn first_fault(items: Seq<Item>, depth: nat) -> Option<ParseErrorView>
    decreases items.len(),
{
    if items.len() == 0 {
        if depth > 0 {
            Some(ParseErrorView::UnexpectedEndOfFile)
        } else {
            None
        }
    } else {
        let rest = items.drop_first();
        match items[0] {
            Err(error) => Some(ParseErrorView::LexerError(error)),
            Ok(token) => match token.value {
                TokenView::LParen => first_fault(rest, depth + 1),
                TokenView::RParen => if depth == 0 {
                    Some(ParseErrorView::UnexpectedToken(token))
                } else {
                    first_fault(rest, (depth - 1) as nat)
                },
                _ => if depth == 0 {
                    Some(ParseErrorView::UnexpectedToken(token))
                } else {
                    first_fault(rest, depth)
                },
            },
        }
    }
}

/// A list that parses closes one level of nesting: what follows it has the
/// faults of the whole, one level further out. A list that does not parse
/// fails with the first fault of its items.
pub proof fn lemma_list_fault(items: Seq<Item>, acc: Seq<Value>, depth: nat)
    ensures
        match parse_list_of(items, acc).0 {
            Ok(_) => first_fault(items, depth + 1) == first_fault(
                parse_list_of(items, acc).1,
                depth,
            ),
            Err(error) => first_fault(items, depth + 1) == Some(error),
        },
    decreases items.len(),
{
    if items.len() > 0 {
        let rest = items.drop_first();
        match items[0] {
            Err(error) => {},
            Ok(token) => match token.value {
                TokenView::RParen => {},
                TokenView::Symbol(text) => {
                    lemma_list_fault(rest, acc.push(Value::Symbol(text)), depth);
                },
                TokenView::Integer(value) => {
                    lemma_list_fault(rest, acc.push(Value::Integer(value)), depth);
                },
                TokenView::LParen => {
                    lemma_list_fault(rest, Seq::empty(), depth + 1);
                    lemma_parse_list_consumes(rest, Seq::empty());
                    let (inner, after) = parse_list_of(rest, Seq::empty());
                    if let Ok(child) = inner {
                        lemma_list_fault(after, acc.push(child), depth);
                    }
                },
            },
        }
    }
}

/// A program parses exactly when its items have no fault, and fails with
/// their first fault when they have one, whatever lists came before.
pub proof fn lemma_program_fault(items: Seq<Item>, forms: Seq<Value>)
    ensures
        match parse_program_of(items, forms).0 {
            Ok(_) => first_fault(items, 0) is None,
            Err(error) => first_fault(items, 0) == Some(error),
        },
    decreases items.len(),
{
    if items.len() > 0 {
        let rest = items.drop_first();
        match items[0] {
            Err(error) => {},
            Ok(token) => match token.value {
                TokenView::LParen => {
                    lemma_list_fault(rest, Seq::empty(), 0);
                    lemma_parse_list_consumes(rest, Seq::empty());
                    let (inner, after) = parse_list_of(rest, Seq::empty());
                    if let Ok(form) = inner {
                        lemma_program_fault(after, forms.push(form));
                    }
                },
                _ => {},
            },
        }
    }
}

/// Parsing succeeds if and only if the parentheses of the items balance and
/// every other token stands inside a list: the parser returns a value
/// exactly when the items have no fault, and otherwise their first fault. A
/// right parenthesis too many is an unexpected token, a missing one an
/// unexpected end of file.
pub proof fn lemma_parse_succeeds_iff_balanced(items: Seq<Item>)
    ensures
        parse_program_of(items, Seq::empty()).0 is Ok <==> first_fault(items, 0) is None,
        parse_program_of(items, Seq::empty()).0 matches Err(error) ==> first_fault(items, 0)
            == Some(error),
{
    lemma_program_fault(items, Seq::empty());
}

/// By how much an item changes the nesting depth: a left parenthesis opens a
/// list, a right parenthesis closes one.
pub open spec fn depth_change(item: Item) -> int {
    match item {
        Ok(token) => match token.value {
            TokenView::LParen => 1,
            TokenView::RParen => -1,
            _ => 0,
        },
        Err(_) => 0,
    }
}

/// The nesting depth behind the first `k` items: the number of lists that
/// they open and do not close.
pub open spec fn depth_after(items: Seq<Item>, k: int) -> int
    decreases k,
{
    if k <= 0 {
        0
    } else {
        depth_after(items, k - 1) + depth_change(items[k - 1])
    }
}

/// Whether an item is a left parenthesis.
pub open spec fn opens_list(item: Item) -> bool {
    item matches Ok(token) && token.value is LParen
}

/// Whether `items`, read inside `depth` open lists, are tokens whose
/// parentheses balance: there is no lexical error among them, every token but
/// a left parenthesis stands inside a list, and no list is open at the end.
pub open spec fn balanced_inside(items: Seq<Item>, depth: nat) -> bool {
    &&& forall|k: int| 0 <= k < items.len() ==> (#[trigger] items[k]) is Ok
    &&& forall|k: int|
        0 <= k < items.len() ==> opens_list(#[trigger] items[k]) || depth + depth_after(items, k)
            > 0
    &&& depth + depth_after(items, items.len() as int) == 0
}

/// Whether `items` are the tokens of a program: their parentheses balance,
/// and every symbol and integer stands inside a list.
pub open spec fn balanced(items: Seq<Item>) -> bool {
    balanced_inside(items, 0)
}

/// The depth behind `k + 1` items is the change of the first and the depth
/// behind `k` of the others.
proof fn lemma_depth_shift(items: Seq<Item>, k: int)
    requires
        0 <= k < items.len(),
    ensures
        depth_after(items, k + 1) == depth_change(items[0]) + depth_after(items.drop_first(), k),
    decreases k,
{
    if k > 0 {
        lemma_depth_shift(items, k - 1);
    } else {
        assert(depth_after(items, 0) == 0);
        assert(depth_after(items.drop_first(), 0) == 0);
    }
}

/// Items have no fault exactly when they balance.
pub proof fn lemma_no_fault_iff_balanced(items: Seq<Item>, depth: nat)
    ensures
        first_fault(items, depth) is None <==> balanced_inside(items, depth),
    decreases items.len(),
{
    if items.len() > 0 {
        let rest = items.drop_first();
        let first = items[0];
        let change = depth_change(first);
        if first is Ok && depth + change >= 0 && (opens_list(first) || depth > 0) {
            let inner = (depth + change) as nat;
            lemma_no_fault_iff_balanced(rest, inner);
            assert forall|k: int| 0 <= k < rest.len() implies depth + depth_after(items, k + 1)
                == inner + depth_after(rest, k) by {
                lemma_depth_shift(items, k);
            }
            if rest.len() > 0 {
                lemma_depth_shift(items, rest.len() - 1);
            }
            if balanced_inside(rest, inner) {
                assert forall|k: int| 0 <= k < items.len() implies (#[trigger] items[k]) is Ok by {
                    if k > 0 {
                        assert(rest[k - 1] == items[k]);
                    }
                }
                assert forall|k: int| 0 <= k < items.len() implies opens_list(#[trigger] items[k])
                    || depth + depth_after(items, k) > 0 by {
                    if k > 0 {
                        assert(rest[k - 1] == items[k]);
                    }
                }
            }
        }
    }
}

/// Parsing succeeds if and only if the items are tokens whose parentheses
/// balance and every symbol and integer among them stands inside a list.
pub proof fn lemma_parse_succeeds_iff_tokens_balance(items: Seq<Item>)
    ensures
        parse_program_of(items, Seq::empty()).0 is Ok <==> balanced(items),
{
    lemma_parse_succeeds_iff_balanced(items);
    lemma_no_fault_iff_balanced(items, 0);
}

} // verus!
