//! The source buffer: owns the log text and converts between character
//! offsets and 1-based (row, column) positions.

use std::rc::Rc;
use vstd::prelude::*;
use vstd::std_specs::iter::IteratorSpec;

verus! {

/// The characters of `s` as a vector, for random access.
pub(crate) fn chars_of(s: &str) -> (v: Vec<char>)
    ensures
        v@ == s@,
{
    broadcast use vstd::string::next_postcondition;
    broadcast use vstd::string::axiom_spec_iter;

    let mut it = s.chars();
    let mut v: Vec<char> = Vec::new();
    loop
        invariant
            it.obeys_prophetic_iter_laws(),
            it.decrease() is Some,
            v@ + it.remaining() == s@,
        decreases it.decrease()->0,
    {
        match it.next() {
            Some(c) => {
                v.push(c);
            },
            None => {
                return v;
            },
        }
    }
}

/// Number of the row that the offset `i` of `s` lies on, 1-based: one more
/// than the number of newlines in the prefix `s[..i]`.
pub open spec fn row_of(s: Seq<char>, i: int) -> int
    decreases i,
{
    if i <= 0 {
        1
    } else {
        row_of(s, i - 1) + if s[i - 1] == '\n' {
            1int
        } else {
            0int
        }
    }
}

/// Offset just past the last newline in the prefix `s[..i]`: the start of
/// the row that offset `i` lies on.
pub open spec fn line_start_of(s: Seq<char>, i: int) -> int
    decreases i,
{
    if i <= 0 {
        0
    } else if s[i - 1] == '\n' {
        i
    } else {
        line_start_of(s, i - 1)
    }
}

/// Offset just past the first newline at or after `from`, or the text's end
/// if no newline follows.
pub open spec fn after_line(s: Seq<char>, from: int) -> int
    decreases s.len() - from,
{
    if 0 <= from < s.len() {
        if s[from] == '\n' {
            from + 1
        } else {
            after_line(s, from + 1)
        }
    } else {
        s.len() as int
    }
}

/// Offset reached by starting at 0 and skipping past `k` newlines (or to the
/// end of the text where fewer remain).
pub open spec fn skip_rows(s: Seq<char>, k: int) -> int
    decreases k,
{
    if k <= 0 {
        0
    } else {
        after_line(s, skip_rows(s, k - 1))
    }
}

/// The offset that row `r`, column `c` (both clamped to at least 1) denote.
pub open spec fn spec_index_of(s: Seq<char>, r: int, c: int) -> int {
    let rr = if r < 1 {
        1int
    } else {
        r
    };
    let cc = if c < 1 {
        1int
    } else {
        c
    };
    skip_rows(s, rr - 1) + cc - 1
}

pub proof fn lemma_row_of_bounds(s: Seq<char>, i: int)
    requires
        0 <= i,
    ensures
        1 <= row_of(s, i) <= i + 1,
    decreases i,
{
    if i > 0 {
        lemma_row_of_bounds(s, i - 1);
    }
}

pub proof fn lemma_line_start_bounds(s: Seq<char>, i: int)
    requires
        0 <= i,
    ensures
        0 <= line_start_of(s, i) <= i,
    decreases i,
{
    if i > 0 {
        lemma_line_start_bounds(s, i - 1);
    }
}

proof fn lemma_after_line_bounds(s: Seq<char>, from: int)
    requires
        0 <= from <= s.len(),
    ensures
        from <= after_line(s, from) <= s.len(),
    decreases s.len() - from,
{
    if from < s.len() && s[from] != '\n' {
        lemma_after_line_bounds(s, from + 1);
    }
}

proof fn lemma_skip_rows_bounds(s: Seq<char>, k: int)
    requires
        0 <= k,
    ensures
        0 <= skip_rows(s, k) <= s.len(),
    decreases k,
{
    if k > 0 {
        lemma_skip_rows_bounds(s, k - 1);
        lemma_after_line_bounds(s, skip_rows(s, k - 1));
    }
}

/// Scanning for a line break from `from` lands just past the first newline
/// at or after `from`.
proof fn lemma_after_line_skip(s: Seq<char>, from: int, j: int)
    requires
        0 <= from <= j <= s.len(),
        forall|k: int| from <= k < j ==> s[k] != '\n',
    ensures
        after_line(s, from) == after_line(s, j),
    decreases j - from,
{
    if from < j {
        lemma_after_line_skip(s, from + 1, j);
    }
}

/// No newline lies between the start of a row and an offset on that row.
proof fn lemma_no_newline_in_row(s: Seq<char>, i: int)
    requires
        0 <= i,
    ensures
        forall|k: int| line_start_of(s, i) <= k < i ==> s[k] != '\n',
    decreases i,
{
    if i > 0 {
        lemma_no_newline_in_row(s, i - 1);
    }
}

/// Skipping past the newlines counted by `row_of` lands exactly on the start
/// of the row that `i` lies on.
proof fn lemma_skip_rows_of_row(s: Seq<char>, i: int)
    requires
        0 <= i <= s.len(),
    ensures
        skip_rows(s, row_of(s, i) - 1) == line_start_of(s, i),
    decreases i,
{
    if i > 0 {
        lemma_skip_rows_of_row(s, i - 1);
        if s[i - 1] == '\n' {
            lemma_line_start_bounds(s, i - 1);
            lemma_no_newline_in_row(s, i - 1);
            lemma_after_line_skip(s, line_start_of(s, i - 1), i - 1);
            lemma_row_of_bounds(s, i - 1);
        }
    }
}

/// Position round-trip: converting any offset in range to (row, column) and
/// back yields the same offset.
pub proof fn lemma_position_roundtrip(s: Seq<char>, i: int)
    requires
        0 <= i <= s.len(),
    ensures
        spec_index_of(s, row_of(s, i), i - line_start_of(s, i) + 1) == i,
{
    lemma_row_of_bounds(s, i);
    lemma_line_start_bounds(s, i);
    lemma_skip_rows_of_row(s, i);
}

/// An immutable log text with cheap offset <-> (row, column) conversions.
/// Offsets, rows and columns all count characters; rows and columns are
/// 1-based, and a newline terminates the row it appears on.
#[derive(Clone)]
pub struct SourceText {
    text: String,
}

impl View for SourceText {
    type V = Seq<char>;

    closed spec fn view(&self) -> Seq<char> {
        self.text@
    }
}

impl SourceText {
    pub fn new(text: String) -> (s: Self)
        ensures
            s@ == text@,
    {
        Self { text }
    }

    pub fn as_str(&self) -> (r: &str)
        ensures
            r@ == self@,
    {
        self.text.as_str()
    }

    pub fn text(&self) -> (r: Rc<String>)
        ensures
            r@ == self@,
    {
        Rc::new(self.text.clone())
    }

    /// The 1-based (row, column) of the offset `index`.
    pub fn row_col(&self, index: usize) -> (rc: (usize, usize))
        requires
            index <= self@.len(),
            index < usize::MAX,
        ensures
            rc.0 == row_of(self@, index as int),
            rc.1 == index - line_start_of(self@, index as int) + 1,
    {
        let chars = chars_of(self.text.as_str());
        let mut row: usize = 1;
        let mut last_line_start: usize = 0;
        let mut j: usize = 0;
        while j < index
            invariant
                chars@ == self@,
                j <= index <= self@.len(),
                index < usize::MAX,
                row == row_of(self@, j as int),
                last_line_start == line_start_of(self@, j as int),
                1 <= row <= j + 1,
                last_line_start <= j,
            decreases index - j,
        {
            if chars[j] == '\n' {
                row = row + 1;
                last_line_start = j + 1;
            }
            j = j + 1;
        }
        proof {
            lemma_line_start_bounds(self@, index as int);
        }
        (row, index - last_line_start + 1)
    }

    /// The offset that row `r`, column `c` denote; both are clamped to at
    /// least 1. The result may point past the end of the text when the
    /// column overshoots the row.
    pub fn index(&self, r: usize, c: usize) -> (out: usize)
        requires
            c <= usize::MAX - self@.len() + 1,
        ensures
            out == spec_index_of(self@, r as int, c as int),
    {
        let chars = chars_of(self.text.as_str());
        let len = chars.len();
        let row = if r < 1 {
            1
        } else {
            r
        };
        let col = if c < 1 {
            1
        } else {
            c
        };

        let mut k: usize = 0;
        let mut idx: usize = 0;
        proof {
            lemma_skip_rows_bounds(self@, 0);
        }
        while k < row - 1
            invariant
                chars@ == self@,
                len == self@.len(),
                1 <= row,
                k <= row - 1,
                idx == skip_rows(self@, k as int),
                idx <= len,
            decreases row - 1 - k,
        {
            let ghost start = idx as int;
            while idx < len && chars[idx] != '\n'
                invariant
                    chars@ == self@,
                    len == self@.len(),
                    start <= idx as int <= len,
                    forall|q: int| start <= q < idx as int ==> self@[q] != '\n',
                decreases len - idx,
            {
                idx = idx + 1;
            }
            proof {
                lemma_after_line_skip(self@, start, idx as int);
            }
            if idx < len {
                idx = idx + 1;
            }
            k = k + 1;
        }
        idx + (col - 1)
    }
}

} // verus!
