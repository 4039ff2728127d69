//! Lines of input without the white space around them.

use crate::frontend::chars::is_whitespace;
use crate::frontend::lexer::{lemma_run_end_is_run, lexeme_start, white_space, Lexer};
use crate::frontend::offsets::{
    char_len_utf8, lemma_encode_subrange, lemma_offset_step, offset_of, slice_between, utf8_len,
};
use vstd::prelude::*;
use vstd::string::StringSliceAdditionalSpecFns;

verus! {

/// The index behind the last of the first `n` characters of `line` that is
/// not white space, or zero if they all are.
pub open spec fn trimmed_end(line: Seq<char>, n: int) -> int
    decreases n,
{
    if n <= 0 {
        0
    } else if is_whitespace(line[n - 1]) {
        trimmed_end(line, n - 1)
    } else {
        n
    }
}

/// `line` without the white space at its start and at its end.
pub open spec fn trimmed(line: Seq<char>) -> Seq<char> {
    let start = lexeme_start(line, 0);
    let end = trimmed_end(line, line.len() as int);
    if start < end {
        line.subrange(start, end)
    } else {
        Seq::empty()
    }
}

/// White space at the end of a part of a line does not move the end of what
/// is left of it.
proof fn lemma_trimmed_end_skips(line: Seq<char>, from: int, to: int)
    requires
        0 <= from <= to <= line.len(),
        forall|i: int| from <= i < to ==> is_whitespace(#[trigger] line[i]),
    ensures
        trimmed_end(line, to) == trimmed_end(line, from),
        trimmed_end(line, from) <= from,
    decreases to,
{
    if from < to {
        lemma_trimmed_end_skips(line, from, to - 1);
    } else if from > 0 && is_whitespace(line[from - 1]) {
        lemma_trimmed_end_skips(line, from - 1, from - 1);
    }
}

/// Removes the white space at the start and at the end of `line`.
pub fn trim(line: &str) -> (text: &str)
    ensures
        text@ == trimmed(line@),
{
    let ghost source = line@;
    let total = line.as_bytes().len();
    let mut lexer = Lexer::new(line);
    proof {
        lemma_run_end_is_run(source, 0, white_space());
    }
    let (begin, first) = match lexer.skip_whitespace() {
        Some(found) => found,
        None => {
            proof {
                lemma_trimmed_end_skips(source, source.len() as int, source.len() as int);
            }
            return slice_between(line, 0, 0, Ghost(0), Ghost(0));
        },
    };
    let ghost from = lexeme_start(source, 0);
    let ghost mut to = from + 1;
    proof {
        lemma_offset_step(source, from);
        lemma_encode_subrange(source, 0, to);
    }
    let mut end = begin + char_len_utf8(first);
    loop
        invariant
            lexer.source() == source,
            source == line@,
            utf8_len(source) == total,
            0 <= from < to <= lexer.index() <= source.len(),
            from == lexeme_start(source, 0),
            begin == offset_of(source, from),
            end == offset_of(source, to),
            to == trimmed_end(source, lexer.index()),
        decreases source.len() - lexer.index(),
    {
        let ghost before = lexer.index();
        proof {
            lemma_run_end_is_run(source, before, white_space());
            lemma_trimmed_end_skips(source, before, lexeme_start(source, before));
        }
        match lexer.skip_whitespace() {
            Some((offset, c)) => {
                proof {
                    to = lexer.index();
                    lemma_offset_step(source, to - 1);
                    lemma_encode_subrange(source, 0, to);
                }
                end = offset + char_len_utf8(c);
            },
            None => {
                return slice_between(line, begin, end, Ghost(from), Ghost(to));
            },
        }
    }
}

} // verus!
