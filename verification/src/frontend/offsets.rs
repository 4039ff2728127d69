//! Byte offsets of characters in UTF-8 text.

use vstd::prelude::*;
use vstd::string::StringSliceAdditionalSpecFns;
use vstd::utf8::*;

verus! {

/// Number of bytes that `c` takes in UTF-8.
pub open spec fn char_width(c: char) -> nat {
    encode_scalar(c as u32).len()
}

/// Number of bytes that `text` takes in UTF-8.
pub open spec fn utf8_len(text: Seq<char>) -> nat {
    encode_utf8(text).len()
}

/// Byte offset of the character at `index` of `text`: the number of bytes
/// that the characters before it take.
pub open spec fn offset_of(text: Seq<char>, index: int) -> nat {
    utf8_len(text.take(index))
}

/// The encoding of a concatenation is the concatenation of the encodings.
pub proof fn lemma_encode_concat(a: Seq<char>, b: Seq<char>)
    ensures
        encode_utf8(a + b) == encode_utf8(a) + encode_utf8(b),
    decreases a.len(),
{
    if a.len() > 0 {
        lemma_encode_concat(a.drop_first(), b);
        assert((a + b).drop_first() =~= a.drop_first() + b);
    }
}

/// The encoding of a single character.
pub proof fn lemma_encode_single(c: char)
    ensures
        encode_utf8(seq![c]) == encode_scalar(c as u32),
{
    assert(seq![c].drop_first() =~= Seq::<char>::empty());
    assert(encode_scalar(c as u32) + encode_utf8(Seq::<char>::empty()) =~= encode_scalar(
        c as u32,
    ));
}

/// The offset of the next character lies one character width further.
pub proof fn lemma_offset_step(text: Seq<char>, index: int)
    requires
        0 <= index < text.len(),
    ensures
        offset_of(text, index + 1) == offset_of(text, index) + char_width(text[index]),
{
    lemma_encode_concat(text.take(index), seq![text[index]]);
    lemma_encode_single(text[index]);
    assert(text.take(index + 1) =~= text.take(index) + seq![text[index]]);
}

/// Offsets grow with the index, by at least one byte for each character.
pub proof fn lemma_offset_monotonic(text: Seq<char>, i: int, j: int)
    requires
        0 <= i <= j <= text.len(),
    ensures
        offset_of(text, i) + (j - i) <= offset_of(text, j),
    decreases j - i,
{
    if i < j {
        lemma_offset_monotonic(text, i, j - 1);
        lemma_offset_step(text, j - 1);
    }
}

/// The offset of the end of the text is its length in bytes, and the offset of
/// its start is zero.
pub proof fn lemma_offset_ends(text: Seq<char>)
    ensures
        offset_of(text, 0) == 0,
        offset_of(text, text.len() as int) == utf8_len(text),
{
    assert(text.take(text.len() as int) =~= text);
}

/// The bytes between the offsets of two characters encode the characters
/// between them.
pub proof fn lemma_encode_subrange(text: Seq<char>, i: int, j: int)
    requires
        0 <= i <= j <= text.len(),
    ensures
        offset_of(text, i) <= offset_of(text, j) <= utf8_len(text),
        encode_utf8(text).subrange(offset_of(text, i) as int, offset_of(text, j) as int)
            == encode_utf8(text.subrange(i, j)),
{
    let head = text.take(i);
    let mid = text.subrange(i, j);
    let tail = text.skip(j);
    lemma_encode_concat(head, mid);
    lemma_encode_concat(head + mid, tail);
    assert(head + mid =~= text.take(j));
    assert(head + mid + tail =~= text);
}

/// The offset of every character, and of the end of the text, is a character
/// boundary of the encoded text.
pub proof fn lemma_offset_is_boundary(text: Seq<char>, index: int)
    requires
        0 <= index <= text.len(),
    ensures
        is_char_boundary(encode_utf8(text), offset_of(text, index) as int),
    decreases index,
{
    let bytes = encode_utf8(text);
    encode_utf8_valid_utf8(text);
    if index > 0 {
        let rest = text.drop_first();
        encode_utf8_first_scalar(text);
        lemma_offset_is_boundary(rest, index - 1);
        assert(pop_first_scalar(bytes) =~= encode_utf8(rest));
        lemma_encode_concat(seq![text[0]], rest.take(index - 1));
        lemma_encode_single(text[0]);
        assert(text.take(index) =~= seq![text[0]] + rest.take(index - 1));
    }
}

/// Text is determined by its encoding.
pub proof fn lemma_encode_injective(a: Seq<char>, b: Seq<char>)
    requires
        encode_utf8(a) == encode_utf8(b),
    ensures
        a == b,
{
    encode_utf8_decode_utf8(a);
    encode_utf8_decode_utf8(b);
}

/// Number of bytes that `c` takes in UTF-8.
pub fn char_len_utf8(c: char) -> (width: usize)
    ensures
        width == char_width(c),
{
    let code = c as u32;
    if code < 0x80 {
        1
    } else if code < 0x800 {
        2
    } else if code < 0x10000 {
        3
    } else {
        4
    }
}

/// The part of `text` between two byte offsets that are the offsets of the
/// characters at `from` and `to`.
pub(crate) fn slice_between<'a>(
    text: &'a str,
    begin: usize,
    end: usize,
    Ghost(from): Ghost<int>,
    Ghost(to): Ghost<int>,
) -> (part: &'a str)
    requires
        0 <= from <= to <= text@.len(),
        begin == offset_of(text@, from),
        end == offset_of(text@, to),
    ensures
        part@ == text@.subrange(from, to),
{
    let ghost whole = text@;
    proof {
        lemma_offset_is_boundary(whole, to);
    }
    let (head, _) = text.split_at(end);
    proof {
        lemma_encode_subrange(whole, 0, to);
        lemma_encode_injective(head@, whole.subrange(0, to));
        lemma_offset_is_boundary(head@, from);
        assert(head@.take(from) =~= whole.take(from));
        lemma_offset_ends(head@);
    }
    let (_, part) = head.split_at(begin);
    proof {
        lemma_encode_subrange(head@, from, to);
        lemma_encode_injective(part@, head@.subrange(from, to));
    }
    part
}

/// Tells whether two strings hold the same text.
pub fn same_text(a: &str, b: &str) -> (same: bool)
    ensures
        same == (a@ == b@),
{
    let left = a.as_bytes();
    let right = b.as_bytes();
    if left.len() != right.len() {
        return false;
    }
    let mut i: usize = 0;
    while i < left.len()
        invariant
            i <= left@.len() == right@.len(),
            left@ == encode_utf8(a@),
            right@ == encode_utf8(b@),
            left@.take(i as int) == right@.take(i as int),
        decreases left@.len() - i,
    {
        if left[i] != right[i] {
            return false;
        }
        i = i + 1;
    }
    proof {
        assert(left@.take(i as int) =~= left@);
        assert(right@.take(i as int) =~= right@);
        lemma_encode_injective(a@, b@);
    }
    true
}

} // verus!
