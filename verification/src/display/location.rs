//! Mapping of byte offsets in a source text to line and column numbers.

use crate::display::decimal::{decimal_digits, push_decimal};
use crate::display::text::push_char;
use vstd::prelude::*;
use vstd::string::{StringExecFns, StringSliceAdditionalSpecFns};

verus! {

/// The byte that terminates a line.
pub const NEWLINE: u8 = 0x0A;

/// Number of line terminators among `bytes`.
pub open spec fn newline_count(bytes: Seq<u8>) -> nat
    decreases bytes.len(),
{
    if bytes.len() == 0 {
        0
    } else {
        newline_count(bytes.drop_last()) + if bytes.last() == NEWLINE {
            1nat
        } else {
            0nat
        }
    }
}

/// Number of lines of `bytes`: every terminated line counts, and so does an
/// unterminated, non-empty last line.
pub open spec fn line_count(bytes: Seq<u8>) -> nat {
    newline_count(bytes) + if bytes.len() > 0 && bytes.last() != NEWLINE {
        1nat
    } else {
        0nat
    }
}

/// Index of the last line terminator strictly before `at`, or `-1` if there is
/// none.
pub open spec fn last_newline_before(bytes: Seq<u8>, at: int) -> int
    decreases at,
{
    if at <= 0 {
        -1
    } else if bytes[at - 1] == NEWLINE {
        at - 1
    } else {
        last_newline_before(bytes, at - 1)
    }
}

/// `idx` limited to the length of `bytes`.
pub open spec fn clamp_offset(bytes: Seq<u8>, idx: int) -> int {
    if idx <= bytes.len() {
        idx
    } else {
        bytes.len() as int
    }
}

/// The line of offset `idx`, counted from 1: the number of lines in the text
/// up to and including the byte at `idx`. An empty text has no line, and every
/// offset in it resolves to line 0.
pub open spec fn line_of(bytes: Seq<u8>, idx: int) -> nat {
    let at = clamp_offset(bytes, idx);
    line_count(bytes.take(clamp_offset(bytes, at + 1)))
}

/// The column of offset `idx`, counted from 1: its distance from the last
/// line terminator before it, or from the position before the text.
pub open spec fn column_of(bytes: Seq<u8>, idx: int) -> int {
    let at = clamp_offset(bytes, idx);
    at - last_newline_before(bytes, at)
}

/// The text of a location: path, line and column, separated by colons.
pub open spec fn location_text(path: Seq<char>, line: nat, column: nat) -> Seq<char> {
    path + seq![':'] + decimal_digits(line) + seq![':'] + decimal_digits(column)
}

/// A position in a source file, for display.
#[derive(Debug, Clone, Copy)]
pub struct Location<'i> {
    /// The file path, used for display only.
    pub path: &'i str,
    /// The line number, counted from 1.
    pub line: usize,
    /// The column number, counted from 1.
    pub column: usize,
}

/// A location in a file: another name for [`Location`].
pub type FileLocation<'i> = Location<'i>;

/// Counting one byte more adds one to the count exactly when that byte
/// terminates a line.
proof fn lemma_newline_count_step(bytes: Seq<u8>, k: int)
    requires
        0 <= k < bytes.len(),
    ensures
        newline_count(bytes.take(k + 1)) == newline_count(bytes.take(k)) + if bytes[k] == NEWLINE {
            1nat
        } else {
            0nat
        },
{
    assert(bytes.take(k + 1).drop_last() =~= bytes.take(k));
}

/// There are no more line terminators than bytes.
proof fn lemma_newline_count_bound(bytes: Seq<u8>)
    ensures
        newline_count(bytes) <= bytes.len(),
    decreases bytes.len(),
{
    if bytes.len() > 0 {
        lemma_newline_count_bound(bytes.drop_last());
    }
}

/// A longer prefix holds at least as many line terminators.
proof fn lemma_newline_count_monotonic(bytes: Seq<u8>, i: int, j: int)
    requires
        0 <= i <= j <= bytes.len(),
    ensures
        newline_count(bytes.take(i)) <= newline_count(bytes.take(j)),
    decreases j - i,
{
    if i < j {
        lemma_newline_count_step(bytes, j - 1);
        lemma_newline_count_monotonic(bytes, i, j - 1);
    }
}

/// Where no line terminator lies between two offsets, the last terminator
/// before both is the same.
proof fn lemma_same_count_same_newline(bytes: Seq<u8>, i: int, j: int)
    requires
        0 <= i <= j <= bytes.len(),
        newline_count(bytes.take(i)) == newline_count(bytes.take(j)),
    ensures
        last_newline_before(bytes, i) == last_newline_before(bytes, j),
    decreases j - i,
{
    if i < j {
        lemma_newline_count_step(bytes, j - 1);
        lemma_newline_count_monotonic(bytes, i, j - 1);
        lemma_same_count_same_newline(bytes, i, j - 1);
    }
}

/// The last line terminator before an offset lies before it.
proof fn lemma_last_newline_range(bytes: Seq<u8>, at: int)
    ensures
        -1 <= last_newline_before(bytes, at),
        at > 0 ==> last_newline_before(bytes, at) < at,
        at <= 0 ==> last_newline_before(bytes, at) == -1,
    decreases at,
{
    if at > 0 && bytes[at - 1] != NEWLINE {
        lemma_last_newline_range(bytes, at - 1);
    }
}

/// An offset that addresses a byte of the text lies on the line after all the
/// terminated lines before it.
pub proof fn lemma_line_of_inside(bytes: Seq<u8>, idx: int)
    requires
        0 <= idx < bytes.len(),
    ensures
        line_of(bytes, idx) == newline_count(bytes.take(idx)) + 1,
{
    lemma_newline_count_step(bytes, idx);
}

/// An offset at or past the end of the text lies on its last line.
pub proof fn lemma_line_of_end(bytes: Seq<u8>, idx: int)
    requires
        idx >= bytes.len(),
    ensures
        line_of(bytes, idx) == line_count(bytes),
        column_of(bytes, idx) == column_of(bytes, bytes.len() as int),
{
    assert(bytes.take(bytes.len() as int) =~= bytes);
}

/// Columns start at 1.
pub proof fn lemma_column_positive(bytes: Seq<u8>, idx: int)
    requires
        0 <= idx,
    ensures
        column_of(bytes, idx) >= 1,
{
    lemma_last_newline_range(bytes, clamp_offset(bytes, idx));
}

/// Lines never decrease along the text: a later offset resolves to the same or
/// a later line.
pub proof fn lemma_line_monotonic(bytes: Seq<u8>, a: int, b: int)
    requires
        0 <= a <= b,
    ensures
        line_of(bytes, a) <= line_of(bytes, b),
{
    let len = bytes.len() as int;
    if a < len {
        lemma_line_of_inside(bytes, a);
        if b < len {
            lemma_line_of_inside(bytes, b);
            lemma_newline_count_monotonic(bytes, a, b);
        } else {
            lemma_line_of_end(bytes, b);
            lemma_newline_count_monotonic(bytes, a, len - 1);
        }
    }
}

/// Within one line columns never decrease: of two offsets on the same line the
/// later one has the same or a later column. The one exception is left out: an
/// offset at or past the end of a text whose last byte terminates a line
/// resolves to column 1 of that line, whatever came before.
pub proof fn lemma_column_monotonic(bytes: Seq<u8>, a: int, b: int)
    requires
        0 <= a < b,
        line_of(bytes, a) == line_of(bytes, b),
        b < bytes.len() || bytes.len() == 0 || bytes.last() != NEWLINE || column_of(bytes, a) == 1,
    ensures
        column_of(bytes, a) <= column_of(bytes, b),
{
    let len = bytes.len() as int;
    if a < len {
        lemma_line_of_inside(bytes, a);
        if b < len {
            lemma_line_of_inside(bytes, b);
            lemma_same_count_same_newline(bytes, a, b);
        } else if bytes.last() != NEWLINE {
            lemma_same_count_same_newline(bytes, a, len);
        }
    }
}

/// Number of lines in the first `upto` bytes.
fn count_lines(bytes: &[u8], upto: usize) -> (lines: usize)
    requires
        upto <= bytes@.len(),
    ensures
        lines == line_count(bytes@.take(upto as int)),
{
    let mut terminated: usize = 0;
    let mut i: usize = 0;
    while i < upto
        invariant
            i <= upto <= bytes@.len(),
            terminated == newline_count(bytes@.take(i as int)),
            terminated <= i,
        decreases upto - i,
    {
        proof {
            lemma_newline_count_step(bytes@, i as int);
        }
        if bytes[i] == NEWLINE {
            terminated = terminated + 1;
        }
        i = i + 1;
    }
    if upto > 0 && bytes[upto - 1] != NEWLINE {
        proof {
            lemma_newline_count_step(bytes@, upto - 1);
            lemma_newline_count_bound(bytes@.take(upto - 1));
        }
        terminated + 1
    } else {
        terminated
    }
}

/// Index of the last line terminator before `at`, if there is one.
fn find_last_newline(bytes: &[u8], at: usize) -> (found: Option<usize>)
    requires
        at <= bytes@.len(),
    ensures
        match found {
            Some(i) => i < at && i == last_newline_before(bytes@, at as int),
            None => last_newline_before(bytes@, at as int) == -1,
        },
{
    let mut i: usize = at;
    while i > 0
        invariant
            i <= at <= bytes@.len(),
            last_newline_before(bytes@, at as int) == last_newline_before(bytes@, i as int),
        decreases i,
    {
        if bytes[i - 1] == NEWLINE {
            return Some(i - 1);
        }
        i = i - 1;
    }
    None
}

impl<'i> Location<'i> {
    /// Resolves the byte offset `idx` in `source`. Offsets past the end
    /// resolve to the position just after the last byte.
    pub fn new(path: &'i str, source: &str, idx: usize) -> (loc: Self)
        requires
            source.spec_bytes().len() < usize::MAX,
        ensures
            loc.path == path,
            loc.line == line_of(source.spec_bytes(), idx as int),
            loc.column == column_of(source.spec_bytes(), idx as int),
    {
        let bytes = source.as_bytes();
        let len = bytes.len();
        let at = if idx <= len {
            idx
        } else {
            len
        };
        let upto = if at < len {
            at + 1
        } else {
            len
        };
        let line = count_lines(bytes, upto);
        let column = match find_last_newline(bytes, at) {
            None => at + 1,
            Some(i) => at - i,
        };
        Location { path, line, column }
    }

    /// Renders the location as `path:line:column`.
    pub fn to_string(&self) -> (text: String)
        ensures
            text@ == location_text(self.path@, self.line as nat, self.column as nat),
    {
        let mut text = String::new();
        text.append(self.path);
        push_char(&mut text, ':');
        push_decimal(&mut text, self.line as u64);
        push_char(&mut text, ':');
        push_decimal(&mut text, self.column as u64);
        text
    }
}

} // verus!
