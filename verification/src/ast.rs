//! The values of the language and their textual form.

use crate::display::decimal::{decimal_text, push_signed_decimal};
use crate::display::text::push_char;
use vstd::prelude::*;
use vstd::string::StringExecFns;

verus! {

/// A value of the language: an atom, a list of values, or a function.
#[derive(Debug, PartialEq)]
pub enum Object<'i> {
    /// The value of an empty program.
    Void,
    /// A truth value.
    Bool(bool),
    /// A 64-bit signed integer.
    Integer(i64),
    /// A symbol, as it is written in the source.
    Symbol(&'i str),
    /// A list of values, in order.
    List(Vec<Object<'i>>),
    /// A function: the names of its parameters and the values of its body.
    Lambda(Vec<&'i str>, Vec<Object<'i>>),
}

/// The mathematical value of an [`Object`]: a finite tree.
pub enum Value {
    Void,
    Bool(bool),
    Integer(int),
    Symbol(Seq<char>),
    List(Seq<Value>),
    Lambda(Seq<Seq<char>>, Seq<Value>),
}

impl<'i> View for Object<'i> {
    type V = Value;

    open spec fn view(&self) -> Value
        decreases self,
    {
        match self {
            Object::Void => Value::Void,
            Object::Bool(b) => Value::Bool(*b),
            Object::Integer(i) => Value::Integer(*i as int),
            Object::Symbol(s) => Value::Symbol(s@),
            Object::List(items) => Value::List(
                Seq::new(
                    items.len() as nat,
                    |i: int|
                        if 0 <= i < items.len() {
                            items[i].view()
                        } else {
                            Value::Void
                        },
                ),
            ),
            Object::Lambda(params, body) => Value::Lambda(
                Seq::new(params.len() as nat, |i: int| params[i]@),
                Seq::new(
                    body.len() as nat,
                    |i: int|
                        if 0 <= i < body.len() {
                            body[i].view()
                        } else {
                            Value::Void
                        },
                ),
            ),
        }
    }
}

/// The values of the objects in `items`, in order.
pub open spec fn values_of<'i>(items: &Vec<Object<'i>>) -> Seq<Value> {
    Seq::new(
        items.len() as nat,
        |i: int|
            if 0 <= i < items.len() {
                items[i]@
            } else {
                Value::Void
            },
    )
}

/// The first `n` of `texts`, joined by single spaces.
pub open spec fn join_texts(texts: Seq<Seq<char>>, n: nat) -> Seq<char>
    decreases n,
{
    if n == 0 {
        Seq::empty()
    } else if n == 1 {
        texts[0]
    } else {
        join_texts(texts, (n - 1) as nat) + seq![' '] + texts[n - 1]
    }
}

/// The text of a value. Atoms are written as they are, a list in parentheses
/// with single spaces between its items.
pub open spec fn render(value: Value) -> Seq<char>
    decreases value, 0nat,
{
    match value {
        Value::Void => "Void"@,
        Value::Bool(b) => if b {
            "true"@
        } else {
            "false"@
        },
        Value::Integer(i) => decimal_text(i),
        Value::Symbol(s) => s,
        Value::List(items) => seq!['('] + render_joined(items, items.len()) + seq![')'],
        Value::Lambda(params, body) => "(lambda ("@ + join_texts(params, params.len()) + ") "@
            + render_joined(body, body.len()) + seq![')'],
    }
}

/// The texts of the first `n` of `items`, joined by single spaces.
pub open spec fn render_joined(items: Seq<Value>, n: nat) -> Seq<char>
    decreases items, n,
{
    if n == 0 || n > items.len() {
        Seq::empty()
    } else if n == 1 {
        render(items[0])
    } else {
        render_joined(items, (n - 1) as nat) + seq![' '] + render(items[n - 1])
    }
}

/// Appends the names in `names` to `text`, joined by single spaces.
fn push_names(text: &mut String, names: &Vec<&str>)
    ensures
        final(text)@ == old(text)@ + join_texts(
            Seq::new(names.len() as nat, |i: int| names[i]@),
            names.len() as nat,
        ),
{
    let ghost texts = Seq::new(names.len() as nat, |i: int| names[i]@);
    let mut i: usize = 0;
    while i < names.len()
        invariant
            i <= names.len(),
            texts == Seq::new(names.len() as nat, |i: int| names[i]@),
            text@ == old(text)@ + join_texts(texts, i as nat),
        decreases names.len() - i,
    {
        if i > 0 {
            push_char(text, ' ');
        }
        text.append(names[i]);
        i = i + 1;
    }
}

impl<'i> Object<'i> {
    /// Appends the texts of `items` to `text`, joined by single spaces.
    fn render_items(items: &Vec<Object<'i>>, text: &mut String)
        ensures
            final(text)@ == old(text)@ + render_joined(values_of(items), items.len() as nat),
        decreases items,
    {
        let ghost values = values_of(items);
        let mut i: usize = 0;
        while i < items.len()
            invariant
                i <= items.len(),
                values == values_of(items),
                text@ == old(text)@ + render_joined(values, i as nat),
            decreases items.len() - i,
        {
            if i > 0 {
                push_char(text, ' ');
            }
            items[i].render_into(text);
            i = i + 1;
        }
    }

    /// Appends the text of the value to `text`.
    fn render_into(&self, text: &mut String)
        ensures
            final(text)@ == old(text)@ + render(self@),
        decreases self,
    {
        match self {
            Object::Void => {
                text.append("Void");
            },
            Object::Bool(b) => {
                if *b {
                    text.append("true");
                } else {
                    text.append("false");
                }
            },
            Object::Integer(i) => {
                push_signed_decimal(text, *i);
            },
            Object::Symbol(s) => {
                text.append(s);
            },
            Object::List(items) => {
                push_char(text, '(');
                Self::render_items(items, text);
                push_char(text, ')');
                proof {
                    assert(self@->List_0 =~= values_of(items));
                }
            },
            Object::Lambda(params, body) => {
                text.append("(lambda (");
                push_names(text, params);
                text.append(") ");
                Self::render_items(body, text);
                push_char(text, ')');
                proof {
                    assert(self@->Lambda_1 =~= values_of(body));
                }
            },
        }
    }

    /// Renders the value as text.
    pub fn to_string(&self) -> (text: String)
        ensures
            text@ == render(self@),
    {
        let mut text = String::new();
        self.render_into(&mut text);
        text
    }
}

} // verus!
