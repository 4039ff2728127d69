//! The lexer: a cursor over the source text that yields located tokens.

use crate::display::text::push_char;
use crate::frontend::chars::{
    char_is_alphabetic, char_is_digit, char_is_symbol_char, char_is_whitespace, is_alphabetic,
    is_digit, is_symbol_char, is_whitespace,
};
use crate::frontend::offsets::{
    char_len_utf8, lemma_encode_injective, lemma_encode_subrange, lemma_offset_is_boundary,
    lemma_offset_monotonic, lemma_offset_step, offset_of, slice_between, utf8_len,
};
use crate::frontend::token::{Token, TokenView};
use vstd::prelude::*;
use vstd::string::{StringExecFns, StringSliceAdditionalSpecFns};
use vstd::utf8::*;

verus! {

broadcast use vstd::string::group_string_axioms;

/// A value with its place in the source text: the half-open range of byte
/// offsets `begin..end`.
#[derive(Debug, PartialEq)]
pub struct Located<T> {
    /// The byte offset of the first byte.
    pub begin: usize,
    /// The byte offset after the last byte.
    pub end: usize,
    /// The value found there.
    pub value: T,
}

/// The mathematical value of a [`Located`].
pub struct LocatedView<V> {
    pub begin: nat,
    pub end: nat,
    pub value: V,
}

impl<T: View> View for Located<T> {
    type V = LocatedView<T::V>;

    open spec fn view(&self) -> LocatedView<T::V> {
        LocatedView { begin: self.begin as nat, end: self.end as nat, value: self.value@ }
    }
}

/// What the lexer cannot turn into a token.
#[derive(Debug, PartialEq)]
pub enum LexError<'i> {
    /// A character that no token starts with.
    UnexpectedCharacter(char),
    /// A run of digits whose value does not fit a 64-bit signed integer.
    IntegerParseError(&'i str),
}

/// The mathematical value of a [`LexError`].
pub enum LexErrorView {
    UnexpectedCharacter(char),
    IntegerParseError(Seq<char>),
}

impl<'i> View for LexError<'i> {
    type V = LexErrorView;

    open spec fn view(&self) -> LexErrorView {
        match self {
            LexError::UnexpectedCharacter(c) => LexErrorView::UnexpectedCharacter(*c),
            LexError::IntegerParseError(s) => LexErrorView::IntegerParseError(s@),
        }
    }
}

/// The message of a lexical error.
pub open spec fn lex_error_text(error: LexErrorView) -> Seq<char> {
    match error {
        LexErrorView::UnexpectedCharacter(c) => "Unexpected character: '"@ + seq![c, '\u{27}'],
        LexErrorView::IntegerParseError(text) => "Invalid integer literal: '"@ + text + seq!['\u{27}'],
    }
}

/// What the lexer yields for one lexeme: a located token or a located error.
pub type Item = Result<LocatedView<TokenView>, LocatedView<LexErrorView>>;

/// The mathematical value of what [`Lexer::next`] yields.
pub open spec fn item_view<'i>(item: Result<Located<Token<'i>>, Located<LexError<'i>>>) -> Item {
    match item {
        Ok(token) => Ok(token@),
        Err(error) => Err(error@),
    }
}

/// The index of the first character at or after `from` that is not in
/// `class`, or the length of `source` if there is none.
pub open spec fn run_end(source: Seq<char>, from: int, class: spec_fn(char) -> bool) -> int
    decreases source.len() - from,
{
    if 0 <= from < source.len() && class(source[from]) {
        run_end(source, from + 1, class)
    } else {
        from
    }
}

/// The class of white space.
pub open spec fn white_space() -> spec_fn(char) -> bool {
    |c: char| is_whitespace(c)
}

/// The class of the decimal digits.
pub open spec fn digits() -> spec_fn(char) -> bool {
    |c: char| is_digit(c)
}

/// The class of the characters that may follow the first one of a symbol.
pub open spec fn symbol_chars() -> spec_fn(char) -> bool {
    |c: char| is_symbol_char(c)
}

/// A run ends where its last character is followed by one that is not in the
/// class, or by the end of the source.
pub proof fn lemma_run_end(source: Seq<char>, from: int, to: int, class: spec_fn(char) -> bool)
    requires
        0 <= from <= to <= source.len(),
        forall|i: int| from <= i < to ==> class(#[trigger] source[i]),
        to < source.len() ==> !class(source[to]),
    ensures
        run_end(source, from, class) == to,
    decreases to - from,
{
    if from < to {
        lemma_run_end(source, from + 1, to, class);
    }
}

/// A run lies within the source, holds only characters of the class, and
/// cannot be extended.
pub proof fn lemma_run_end_is_run(source: Seq<char>, from: int, class: spec_fn(char) -> bool)
    requires
        0 <= from <= source.len(),
    ensures
        from <= run_end(source, from, class) <= source.len(),
        forall|i: int| from <= i < run_end(source, from, class) ==> class(#[trigger] source[i]),
        run_end(source, from, class) < source.len() ==> !class(
            source[run_end(source, from, class)],
        ),
    decreases source.len() - from,
{
    if from < source.len() && class(source[from]) {
        lemma_run_end_is_run(source, from + 1, class);
    }
}

/// The value of a run of decimal digits.
pub open spec fn decimal_value(digits: Seq<char>) -> nat
    decreases digits.len(),
{
    if digits.len() == 0 {
        0
    } else {
        10 * decimal_value(digits.drop_last()) + (digits.last() as int - 48) as nat
    }
}

/// The index after the lexeme that starts at `start`: a run of digits, a run
/// of symbol characters after an alphabetic one, or a single character.
pub open spec fn lexeme_end(source: Seq<char>, start: int) -> int {
    let c = source[start];
    if c == '(' || c == ')' || c == '+' || c == '-' {
        start + 1
    } else if is_digit(c) {
        run_end(source, start + 1, digits())
    } else if is_alphabetic(c) {
        run_end(source, start + 1, symbol_chars())
    } else {
        start + 1
    }
}

/// The token that a lexeme stands for, or the error that it is.
pub open spec fn classify(lexeme: Seq<char>) -> Result<TokenView, LexErrorView> {
    let c = lexeme[0];
    if c == '(' {
        Ok(TokenView::LParen)
    } else if c == ')' {
        Ok(TokenView::RParen)
    } else if c == '+' || c == '-' {
        Ok(TokenView::Symbol(lexeme))
    } else if is_digit(c) {
        if decimal_value(lexeme) <= i64::MAX {
            Ok(TokenView::Integer(decimal_value(lexeme) as int))
        } else {
            Err(LexErrorView::IntegerParseError(lexeme))
        }
    } else if is_alphabetic(c) {
        Ok(TokenView::Symbol(lexeme))
    } else {
        Err(LexErrorView::UnexpectedCharacter(c))
    }
}

/// A token or an error with its place.
pub open spec fn located(begin: nat, end: nat, value: Result<TokenView, LexErrorView>) -> Item {
    match value {
        Ok(token) => Ok(LocatedView { begin, end, value: token }),
        Err(error) => Err(LocatedView { begin, end, value: error }),
    }
}

/// The index of the first character at or after `index` that is not white
/// space.
pub open spec fn lexeme_start(source: Seq<char>, index: int) -> int {
    run_end(source, index, white_space())
}

/// What the lexer yields when it has read `index` characters of `source`, and
/// the number of characters that it has read afterwards; `None` when only
/// white space is left. The lexeme starts at the first character that is not
/// white space, and the item carries the byte offsets of its two ends.
pub open spec fn scan(source: Seq<char>, index: int) -> Option<(Item, int)> {
    let start = lexeme_start(source, index);
    if start >= source.len() {
        None
    } else {
        let end = lexeme_end(source, start);
        Some(
            (
                located(
                    offset_of(source, start),
                    offset_of(source, end),
                    classify(source.subrange(start, end)),
                ),
                end,
            ),
        )
    }
}

/// A lexeme is not empty and lies within the source.
pub proof fn lemma_scan_advances(source: Seq<char>, index: int)
    requires
        0 <= index <= source.len(),
    ensures
        index <= lexeme_start(source, index) <= source.len(),
        scan(source, index) matches Some((_, next)) ==> lexeme_start(source, index) < next
            <= source.len(),
        scan(source, index) is None <==> lexeme_start(source, index) == source.len(),
{
    let start = lexeme_start(source, index);
    lemma_run_end_is_run(source, index, white_space());
    if start < source.len() {
        lemma_run_end_is_run(source, start + 1, digits());
        lemma_run_end_is_run(source, start + 1, symbol_chars());
    }
}

/// All that the lexer yields after it has read `index` characters of
/// `source`, in order.
pub open spec fn items_from(source: Seq<char>, index: int) -> Seq<Item>
    decreases source.len() - index,
    when 0 <= index <= source.len()
{
    match scan(source, index) {
        Some((item, next)) => {
            proof {
                lemma_scan_advances(source, index);
            }
            seq![item] + items_from(source, next)
        },
        None => Seq::empty(),
    }
}

/// The lexeme that an item was read from spells it: a parenthesis is the one
/// character, a symbol is its text, an integer is the value of a run of
/// digits, and an error carries the character or the text that it is about.
pub open spec fn spells(lexeme: Seq<char>, item: Item) -> bool {
    match item {
        Ok(token) => match token.value {
            TokenView::LParen => lexeme == seq!['('],
            TokenView::RParen => lexeme == seq![')'],
            TokenView::Symbol(text) => lexeme == text,
            TokenView::Integer(value) => {
                &&& lexeme.len() > 0
                &&& forall|i: int| 0 <= i < lexeme.len() ==> is_digit(#[trigger] lexeme[i])
                &&& decimal_value(lexeme) == value
            },
        },
        Err(error) => match error.value {
            LexErrorView::UnexpectedCharacter(c) => lexeme == seq![c],
            LexErrorView::IntegerParseError(text) => lexeme == text,
        },
    }
}

/// The byte offset where an item begins.
pub open spec fn item_begin(item: Item) -> nat {
    match item {
        Ok(token) => token.begin,
        Err(error) => error.begin,
    }
}

/// The byte offset where an item ends.
pub open spec fn item_end(item: Item) -> nat {
    match item {
        Ok(token) => token.end,
        Err(error) => error.end,
    }
}

/// The span of an item covers its lexeme: the bytes of the source from
/// `begin` to `end` are the text that spells the item.
pub open spec fn span_covers(source: Seq<char>, item: Item) -> bool {
    let bytes = encode_utf8(source);
    &&& item_begin(item) < item_end(item) <= bytes.len()
    &&& valid_utf8(bytes.subrange(item_begin(item) as int, item_end(item) as int))
    &&& spells(decode_utf8(bytes.subrange(item_begin(item) as int, item_end(item) as int)), item)
}

/// The span of every item that the lexer yields covers its lexeme.
pub proof fn lemma_span_covers_lexeme(source: Seq<char>, index: int)
    requires
        0 <= index <= source.len(),
    ensures
        scan(source, index) matches Some((item, _)) ==> span_covers(source, item),
{
    lemma_scan_advances(source, index);
    if let Some((item, end)) = scan(source, index) {
        let start = lexeme_start(source, index);
        let lexeme = source.subrange(start, end);
        lemma_encode_subrange(source, start, end);
        encode_utf8_valid_utf8(lexeme);
        encode_utf8_decode_utf8(lexeme);
        lemma_run_end_is_run(source, start + 1, digits());
    }
}

/// Every item that the lexer yields on a source has a span that covers its
/// lexeme, and the items follow each other in the source: none begins before
/// the one before it ends.
pub proof fn lemma_spans_cover_in_order(source: Seq<char>, index: int)
    requires
        0 <= index <= source.len(),
    ensures
        forall|k: int|
            0 <= k < items_from(source, index).len() ==> span_covers(
                source,
                #[trigger] items_from(source, index)[k],
            ),
        forall|k: int|
            0 <= k < items_from(source, index).len() ==> offset_of(source, index) <= item_begin(
                #[trigger] items_from(source, index)[k],
            ),
        forall|j: int, k: int|
            0 <= j < k < items_from(source, index).len() ==> item_end(
                #[trigger] items_from(source, index)[j],
            ) <= item_begin(#[trigger] items_from(source, index)[k]),
    decreases source.len() - index,
{
    lemma_scan_advances(source, index);
    lemma_span_covers_lexeme(source, index);
    if let Some((first, next)) = scan(source, index) {
        let items = items_from(source, index);
        let rest = items_from(source, next);
        lemma_spans_cover_in_order(source, next);
        lemma_offset_monotonic(source, index, lexeme_start(source, index));
        assert forall|k: int| 0 < k < items.len() implies #[trigger] items[k] == rest[k - 1] by {}
    }
}

/// Longer runs of digits have larger values.
proof fn lemma_decimal_value_monotonic(digits: Seq<char>, n: int)
    requires
        0 <= n <= digits.len(),
        forall|i: int| 0 <= i < digits.len() ==> is_digit(#[trigger] digits[i]),
    ensures
        decimal_value(digits.take(n)) <= decimal_value(digits),
    decreases digits.len() - n,
{
    if n < digits.len() {
        lemma_decimal_value_monotonic(digits, n + 1);
        assert(digits.take(n + 1).drop_last() =~= digits.take(n));
    } else {
        assert(digits.take(n) =~= digits);
    }
}

/// The value of a run of decimal digits, if it fits a 64-bit signed integer.
fn parse_digits(text: &str) -> (value: Option<i64>)
    requires
        forall|i: int| 0 <= i < text@.len() ==> is_digit(#[trigger] text@[i]),
    ensures
        match value {
            Some(v) => v == decimal_value(text@),
            None => decimal_value(text@) > i64::MAX,
        },
{
    proof {
        assert(vstd::string::is_ascii(text));
    }
    let bytes = text.as_bytes();
    let mut value: i64 = 0;
    let mut i: usize = 0;
    while i < bytes.len()
        invariant
            i <= bytes@.len(),
            bytes@.len() == text@.len(),
            forall|k: int| 0 <= k < text@.len() ==> bytes@[k] == text@[k] as u8,
            forall|k: int| 0 <= k < text@.len() ==> is_digit(#[trigger] text@[k]),
            0 <= value,
            value == decimal_value(text@.take(i as int)),
        decreases bytes@.len() - i,
    {
        let digit = bytes[i] - 48;
        let wide: u128 = value as u128 * 10 + digit as u128;
        proof {
            assert(text@.take(i + 1).drop_last() =~= text@.take(i as int));
            lemma_decimal_value_monotonic(text@, i + 1);
        }
        if wide > i64::MAX as u128 {
            return None;
        }
        value = wide as i64;
        i = i + 1;
    }
    proof {
        assert(text@.take(i as int) =~= text@);
    }
    Some(value)
}

/// A cursor over the source text.
pub struct Lexer<'i> {
    /// The whole source text.
    input: &'i str,
    /// The part of the source text that has not been read.
    rest: &'i str,
    /// The byte offset of `rest` in `input`.
    pos: usize,
    /// The number of characters that have been read.
    index: Ghost<int>,
}

impl<'i> Lexer<'i> {
    /// The characters of the source text.
    pub closed spec fn source(&self) -> Seq<char> {
        self.input@
    }

    /// The number of characters that have been read.
    pub closed spec fn index(&self) -> int {
        self.index@
    }

    /// All that the lexer has yet to yield, in order.
    pub open spec fn remaining(&self) -> Seq<Item> {
        items_from(self.source(), self.index())
    }

    #[verifier::type_invariant]
    spec fn well_formed(&self) -> bool {
        &&& 0 <= self.index@ <= self.input@.len()
        &&& self.rest@ == self.input@.skip(self.index@)
        &&& self.pos == offset_of(self.input@, self.index@)
        &&& utf8_len(self.input@) <= usize::MAX
    }

    /// A lexer at the start of `input`.
    pub fn new(input: &'i str) -> (lexer: Self)
        ensures
            lexer.source() == input@,
            lexer.index() == 0,
    {
        // The length of the source in bytes fits a `usize`, and so does every
        // offset in it.
        let total = input.as_bytes().len();
        proof {
            assert(utf8_len(input@) == total);
            assert(input@.skip(0) =~= input@);
        }
        Lexer { input, rest: input, pos: 0, index: Ghost(0) }
    }

    /// The next character, if there is one.
    fn peek(&self) -> (next: Option<char>)
        ensures
            next == if self.index() < self.source().len() {
                Some(self.source()[self.index()])
            } else {
                None
            },
    {
        proof {
            use_type_invariant(self);
        }
        let mut chars = self.rest.chars();
        chars.next()
    }

    /// Moves past the next character, which is `c`.
    fn bump(&mut self, c: char)
        requires
            old(self).index() < old(self).source().len(),
            c == old(self).source()[old(self).index()],
        ensures
            final(self).source() == old(self).source(),
            final(self).index() == old(self).index() + 1,
    {
        proof {
            use_type_invariant(&*self);
        }
        let width = char_len_utf8(c);
        let ghost unread = self.rest@;
        proof {
            lemma_offset_is_boundary(unread, 1);
            lemma_offset_step(unread, 0);
        }
        let (_, tail) = self.rest.split_at(width);
        proof {
            lemma_encode_subrange(unread, 1, unread.len() as int);
            lemma_encode_injective(tail@, unread.subrange(1, unread.len() as int));
            assert(unread.subrange(1, unread.len() as int) =~= self.input@.skip(self.index@ + 1));
            lemma_offset_step(self.input@, self.index@);
            lemma_encode_subrange(self.input@, 0, self.index@ + 1);
        }
        *self = Lexer {
            input: self.input,
            rest: tail,
            pos: self.pos + width,
            index: Ghost(self.index@ + 1),
        };
    }

    /// Skips white space, then reads the first character that is not white
    /// space and returns it with its byte offset; `None` at the end of the
    /// source.
    pub fn skip_whitespace(&mut self) -> (found: Option<(usize, char)>)
        ensures
            final(self).source() == old(self).source(),
            0 <= old(self).index() <= final(self).index() <= old(self).source().len(),
            ({
                let source = old(self).source();
                let start = lexeme_start(source, old(self).index());
                if start < source.len() {
                    &&& found == Some((offset_of(source, start) as usize, source[start]))
                    &&& offset_of(source, start) <= usize::MAX
                    &&& final(self).index() == start + 1
                } else {
                    &&& found is None
                    &&& final(self).index() == source.len()
                }
            }),
    {
        let ghost source = self.source();
        let ghost start = lexeme_start(source, self.index());
        proof {
            use_type_invariant(&*self);
        }
        loop
            invariant
                source == old(self).source(),
                start == lexeme_start(source, old(self).index()),
                self.source() == source,
                0 <= old(self).index() <= self.index() <= source.len(),
                lexeme_start(source, self.index()) == start,
            decreases source.len() - self.index(),
        {
            proof {
                use_type_invariant(&*self);
            }
            match self.peek() {
                Some(c) => {
                    let begin = self.pos;
                    let blank = char_is_whitespace(c);
                    self.bump(c);
                    if !blank {
                        return Some((begin, c));
                    }
                },
                None => {
                    return None;
                },
            }
        }
    }

    /// Reads characters as long as `predicate` accepts them, and returns the
    /// byte offset of the first character that it does not accept, or the
    /// length of the source in bytes.
    pub fn consume_while(&mut self, predicate: impl Fn(char) -> bool) -> (end: usize)
        requires
            forall|c: char| call_requires(predicate, (c,)),
        ensures
            final(self).source() == old(self).source(),
            0 <= old(self).index() <= final(self).index() <= old(self).source().len(),
            forall|i: int|
                old(self).index() <= i < final(self).index() ==> call_ensures(
                    predicate,
                    (#[trigger] old(self).source()[i],),
                    true,
                ),
            final(self).index() < old(self).source().len() ==> call_ensures(
                predicate,
                (old(self).source()[final(self).index()],),
                false,
            ),
            end == offset_of(old(self).source(), final(self).index()),
    {
        let ghost source = self.source();
        let ghost first = self.index();
        proof {
            use_type_invariant(&*self);
        }
        loop
            invariant
                source == old(self).source(),
                first == old(self).index(),
                self.source() == source,
                0 <= first <= self.index() <= source.len(),
                forall|i: int|
                    first <= i < self.index() ==> call_ensures(
                        predicate,
                        (#[trigger] source[i],),
                        true,
                    ),
                forall|c: char| call_requires(predicate, (c,)),
            decreases source.len() - self.index(),
        {
            proof {
                use_type_invariant(&*self);
            }
            match self.peek() {
                Some(c) => {
                    if predicate(c) {
                        self.bump(c);
                    } else {
                        return self.pos;
                    }
                },
                None => {
                    return self.pos;
                },
            }
        }
    }

    /// Yields the next token or lexical error, or `None` when only white
    /// space is left. After `None` the lexer is at the end of the source and
    /// yields `None` ever after.
    pub fn next(&mut self) -> (item: Option<Result<Located<Token<'i>>, Located<LexError<'i>>>>)
        ensures
            final(self).source() == old(self).source(),
            0 <= old(self).index() <= final(self).index() <= old(self).source().len(),
            match scan(old(self).source(), old(self).index()) {
                Some((expected, index)) => {
                    &&& item matches Some(found)
                    &&& item_view(found) == expected
                    &&& final(self).index() == index
                },
                None => item is None && final(self).index() == old(self).source().len(),
            },
            match item {
                Some(found) => {
                    &&& old(self).remaining().len() > 0
                    &&& item_view(found) == old(self).remaining()[0]
                    &&& final(self).remaining() == old(self).remaining().drop_first()
                    &&& span_covers(old(self).source(), item_view(found))
                },
                None => old(self).remaining().len() == 0 && final(self).remaining().len() == 0,
            },
    {
        let ghost source = self.source();
        let ghost start = lexeme_start(source, self.index());
        proof {
            use_type_invariant(&*self);
            lemma_scan_advances(source, self.index());
            lemma_span_covers_lexeme(source, self.index());
        }
        let (begin, c) = match self.skip_whitespace() {
            Some(found) => found,
            None => {
                return None;
            },
        };
        proof {
            lemma_offset_step(source, start);
        }
        if c == '(' {
            Some(Ok(Located { begin, end: begin + 1, value: Token::LParen }))
        } else if c == ')' {
            Some(Ok(Located { begin, end: begin + 1, value: Token::RParen }))
        } else if c == '+' || c == '-' {
            let text = slice_between(self.input, begin, begin + 1, Ghost(start), Ghost(start + 1));
            Some(Ok(Located { begin, end: begin + 1, value: Token::Symbol(text) }))
        } else if char_is_digit(c) {
            let is_digit_char = |c: char| -> (b: bool)
                ensures
                    b == is_digit(c),
                { char_is_digit(c) };
            let end = self.consume_while(is_digit_char);
            proof {
                lemma_run_end(source, start + 1, self.index(), digits());
            }
            let text = slice_between(self.input, begin, end, Ghost(start), Ghost(self.index()));
            match parse_digits(text) {
                Some(value) => Some(Ok(Located { begin, end, value: Token::Integer(value) })),
                None => Some(
                    Err(Located { begin, end, value: LexError::IntegerParseError(text) }),
                ),
            }
        } else if char_is_alphabetic(c) {
            let is_symbol_part = |c: char| -> (b: bool)
                ensures
                    b == is_symbol_char(c),
                { char_is_symbol_char(c) };
            let end = self.consume_while(is_symbol_part);
            proof {
                lemma_run_end(source, start + 1, self.index(), symbol_chars());
            }
            let text = slice_between(self.input, begin, end, Ghost(start), Ghost(self.index()));
            Some(Ok(Located { begin, end, value: Token::Symbol(text) }))
        } else {
            let end = begin + char_len_utf8(c);
            Some(Err(Located { begin, end, value: LexError::UnexpectedCharacter(c) }))
        }
    }

    /// Yields everything that is left, in order.
    pub fn collect(self) -> (items: Vec<Result<Located<Token<'i>>, Located<LexError<'i>>>>)
        ensures
            items@.len() == self.remaining().len(),
            forall|i: int|
                0 <= i < items@.len() ==> item_view(#[trigger] items@[i]) == self.remaining()[i],
            forall|i: int|
                0 <= i < items@.len() ==> span_covers(self.source(), item_view(#[trigger] items@[i])),
    {
        let ghost all = self.remaining();
        let mut lexer = self;
        let mut items = Vec::new();
        loop
            invariant
                lexer.source() == self.source(),
                all == self.remaining(),
                items@.len() <= all.len(),
                lexer.remaining() == all.skip(items@.len() as int),
                forall|i: int|
                    0 <= i < items@.len() ==> item_view(#[trigger] items@[i]) == all[i],
                forall|i: int|
                    0 <= i < items@.len() ==> span_covers(
                        self.source(),
                        item_view(#[trigger] items@[i]),
                    ),
            decreases lexer.remaining().len(),
        {
            match lexer.next() {
                Some(item) => {
                    items.push(item);
                },
                None => {
                    return items;
                },
            }
        }
    }
}

impl<'i> LexError<'i> {
    /// Renders the error as a message.
    pub fn to_string(&self) -> (text: String)
        ensures
            text@ == lex_error_text(self@),
    {
        let mut text = String::new();
        match self {
            LexError::UnexpectedCharacter(c) => {
                text.append("Unexpected character: '");
                push_char(&mut text, *c);
            },
            LexError::IntegerParseError(s) => {
                text.append("Invalid integer literal: '");
                text.append(s);
            },
        }
        push_char(&mut text, '\u{27}');
        text
    }
}

} // verus!
