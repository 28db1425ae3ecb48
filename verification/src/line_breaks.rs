//! The line structure of a text: where its line boundaries lie, and from them
//! the line number, line start and column of a byte offset.
//!
//! A line boundary is a line feed, a carriage return, a carriage return
//! directly followed by a line feed (one boundary, not two), U+2028 or U+2029.
//! Lines are numbered from one; the first begins at offset zero and every
//! other one where a boundary ends.

use vstd::prelude::*;
use crate::character_validator::is_line_terminator;
use crate::encoding::{
    byte_offset, char_index, char_width, lemma_byte_offset_add, lemma_byte_offset_increasing,
    lemma_byte_offset_split, lemma_byte_offset_step, lemma_char_index_skip,
    lemma_utf8_len_bounds, utf8_len,
};

verus! {

/// A line boundary: the byte offset at which it begins, and the one just
/// after it, where the next line begins.
pub struct LineBreak {
    pub begin: int,
    pub end: int,
}

/// `s` begins with a carriage return directly followed by a line feed.
pub open spec fn starts_with_crlf(s: Seq<char>) -> bool {
    s.len() >= 2 && s[0] == '\r' && s[1] == '\n'
}

/// Number of scalar values that a scan takes from the head of a non-empty
/// `s` in one step: both halves of a CR LF pair, or else one.
pub open spec fn head_chars(s: Seq<char>) -> int {
    if starts_with_crlf(s) {
        2
    } else {
        1
    }
}

/// The line boundaries of `s`, in order, where `s` begins at byte offset `base`.
pub open spec fn line_breaks_from(s: Seq<char>, base: int) -> Seq<LineBreak>
    decreases s.len(),
{
    if s.len() == 0 {
        Seq::empty()
    } else {
        let n = head_chars(s);
        let next = base + byte_offset(s, n);
        let rest = line_breaks_from(s.skip(n), next);
        if is_line_terminator(s[0]) {
            seq![LineBreak { begin: base, end: next }] + rest
        } else {
            rest
        }
    }
}

/// The line boundaries of the text `s`, in order.
pub open spec fn line_breaks(s: Seq<char>) -> Seq<LineBreak> {
    line_breaks_from(s, 0)
}

/// Number of lines of `s`: one more than it has boundaries.
pub open spec fn line_count(s: Seq<char>) -> nat {
    line_breaks(s).len() + 1
}

/// The offsets at which the lines of `s` begin, in order.
pub open spec fn line_starts(s: Seq<char>) -> Seq<int> {
    Seq::new(
        line_count(s),
        |i: int|
            if i == 0 {
                0
            } else {
                line_breaks(s)[i - 1].end
            },
    )
}

/// The offset at which line `line` (counted from one) begins, if `s` has
/// such a line.
pub open spec fn line_offset(s: Seq<char>, line: int) -> Option<int> {
    if 1 <= line <= line_count(s) {
        Some(line_starts(s)[line - 1])
    } else {
        None
    }
}

/// The boundaries that begin before `offset`.
pub open spec fn begins_before(offset: int) -> spec_fn(LineBreak) -> bool {
    |b: LineBreak| b.begin < offset
}

/// The line number (counted from one) of byte offset `offset`: one more than
/// the number of boundaries that begin before it.
pub open spec fn line_number(s: Seq<char>, offset: int) -> nat {
    line_breaks(s).filter(begins_before(offset)).len() + 1
}

/// The offset at which the line of `offset` begins.
pub open spec fn line_start(s: Seq<char>, offset: int) -> int {
    line_starts(s)[line_number(s, offset) - 1]
}

/// The column (counted from zero) of `offset`: the number of scalar values
/// that begin between the start of its line and `offset`. It is zero where
/// the line start lies past `offset`, which is so only inside a boundary.
pub open spec fn column(s: Seq<char>, offset: int) -> nat {
    let start = line_start(s, offset);
    if start > offset {
        0
    } else {
        (char_index(s, offset) - char_index(s, start)) as nat
    }
}

/// `offset` lies strictly inside a line boundary: behind the carriage return
/// of a CR LF pair, or behind the first or second byte of U+2028 or U+2029.
pub open spec fn inside_line_break(s: Seq<char>, offset: int) -> bool {
    exists|j: int|
        0 <= j < line_breaks(s).len() && (#[trigger] line_breaks(s)[j]).begin < offset
            < line_breaks(s)[j].end
}

/// Boundaries are not empty, lie within the text and do not overlap: each
/// begins where the one before ends, or later.
pub open spec fn ordered_within(bs: Seq<LineBreak>, low: int, high: int) -> bool {
    &&& forall|j: int| 0 <= j < bs.len() ==> low <= (#[trigger] bs[j]).begin < bs[j].end <= high
    &&& forall|i: int, j: int|
        0 <= i < j < bs.len() ==> (#[trigger] bs[i]).end <= (#[trigger] bs[j]).begin
}

/// The first step of a scan over a non-empty text stays within it.
pub proof fn lemma_head_chars(s: Seq<char>)
    requires
        s.len() > 0,
    ensures
        1 <= head_chars(s) <= s.len(),
        0 < byte_offset(s, head_chars(s)) <= utf8_len(s),
{
    let n = head_chars(s);
    lemma_byte_offset_increasing(s, 0, n);
    lemma_byte_offset_split(s, n);
}

/// One step of a scan, where the boundaries still to come are those of
/// `bs` from index `k` on: a terminator at the head is boundary `k`, and
/// what follows the step holds the boundaries after it.
pub proof fn lemma_scan_step(bs: Seq<LineBreak>, k: int, s: Seq<char>, base: int)
    requires
        s.len() > 0,
        0 <= k <= bs.len(),
        line_breaks_from(s, base) == bs.skip(k),
    ensures
        ({
            let n = head_chars(s);
            let next = base + byte_offset(s, n);
            &&& byte_offset(s, n) == if starts_with_crlf(s) {
                char_width(s[0]) + char_width(s[1])
            } else {
                char_width(s[0])
            }
            &&& s.skip(n) == if starts_with_crlf(s) {
                s.drop_first().drop_first()
            } else {
                s.drop_first()
            }
            &&& is_line_terminator(s[0]) ==> k < bs.len() && bs[k] == (LineBreak {
                begin: base,
                end: next,
            }) && line_breaks_from(s.skip(n), next) == bs.skip(k + 1)
            &&& !is_line_terminator(s[0]) ==> line_breaks_from(s.skip(n), next) == bs.skip(k)
        }),
{
    let n = head_chars(s);
    let next = base + byte_offset(s, n);
    lemma_byte_offset_step(s, 0);
    if starts_with_crlf(s) {
        lemma_byte_offset_step(s, 1);
    }
    if is_line_terminator(s[0]) {
        let rest = line_breaks_from(s.skip(n), next);
        let head = seq![LineBreak { begin: base, end: next }];
        assert(bs.skip(k).len() > 0);
        assert(bs[k] == bs.skip(k)[0]);
        assert((head + rest).skip(1) =~= rest);
    }
}

/// The boundaries of a text lie in order within the bytes of the text.
pub proof fn lemma_line_breaks_ordered(s: Seq<char>, base: int)
    ensures
        ordered_within(line_breaks_from(s, base), base, base + utf8_len(s)),
        line_breaks_from(s, base).len() <= s.len(),
    decreases s.len(),
{
    if s.len() > 0 {
        let n = head_chars(s);
        let next = base + byte_offset(s, n);
        lemma_head_chars(s);
        lemma_byte_offset_split(s, n);
        lemma_line_breaks_ordered(s.skip(n), next);
    }
}

/// A text has at most one line more than it has scalar values, and so than
/// it has bytes.
pub proof fn lemma_line_count_bound(s: Seq<char>)
    ensures
        line_count(s) <= s.len() + 1 <= utf8_len(s) + 1,
{
    lemma_line_breaks_ordered(s, 0);
    lemma_utf8_len_bounds(s);
}

/// Every line begins where a scalar value begins, and the boundaries of the
/// text from there on are the boundaries of the lines that follow.
pub proof fn lemma_line_start_suffix(s: Seq<char>, base: int, k: int)
    requires
        0 <= k <= line_breaks_from(s, base).len(),
    ensures
        ({
            let bs = line_breaks_from(s, base);
            let p = if k == 0 {
                base
            } else {
                bs[k - 1].end
            };
            let i = char_index(s, p - base) as int;
            &&& base <= p <= base + utf8_len(s)
            &&& 0 <= i <= s.len()
            &&& byte_offset(s, i) == p - base
            &&& line_breaks_from(s.skip(i), p) == bs.skip(k)
        }),
    decreases s.len(),
{
    let bs = line_breaks_from(s, base);
    if k == 0 {
        assert(s.skip(0) =~= s);
    } else {
        let n = head_chars(s);
        let next = base + byte_offset(s, n);
        let k_rest = if is_line_terminator(s[0]) {
            k - 1
        } else {
            k
        };
        lemma_head_chars(s);
        lemma_line_start_suffix(s.skip(n), next, k_rest);
        let p = bs[k - 1].end;
        let i_rest = char_index(s.skip(n), p - next) as int;
        lemma_char_index_skip(s, n, p - base);
        lemma_byte_offset_add(s, n, i_rest);
        lemma_byte_offset_split(s, n);
        assert(s.skip(n).skip(i_rest) =~= s.skip(n + i_rest));
    }
}

/// With boundaries in order, those that begin before an offset are the
/// first so many: `k` of them, where `k` is the one number such that the
/// boundaries before index `k` begin before the offset and the others do not.
pub proof fn lemma_breaks_before_is(bs: Seq<LineBreak>, offset: int, k: int)
    requires
        0 <= k <= bs.len(),
        forall|j: int| 0 <= j < k ==> (#[trigger] bs[j]).begin < offset,
        forall|j: int| k <= j < bs.len() ==> (#[trigger] bs[j]).begin >= offset,
    ensures
        bs.filter(begins_before(offset)).len() == k,
    decreases bs.len(),
{
    reveal(Seq::filter);
    if bs.len() > 0 {
        let front = bs.drop_last();
        if k == bs.len() {
            lemma_breaks_before_is(front, offset, k - 1);
        } else {
            lemma_breaks_before_is(front, offset, k);
        }
    }
}

/// With boundaries in order, those that begin before an offset come first.
pub proof fn lemma_breaks_before_split(bs: Seq<LineBreak>, low: int, high: int, offset: int)
    requires
        ordered_within(bs, low, high),
    ensures
        ({
            let k = bs.filter(begins_before(offset)).len();
            &&& k <= bs.len()
            &&& forall|j: int| 0 <= j < k ==> (#[trigger] bs[j]).begin < offset
            &&& forall|j: int| k <= j < bs.len() ==> (#[trigger] bs[j]).begin >= offset
        }),
    decreases bs.len(),
{
    reveal(Seq::filter);
    if bs.len() > 0 {
        let front = bs.drop_last();
        let k = bs.filter(begins_before(offset)).len();
        lemma_breaks_before_split(front, low, high, offset);
        if bs.last().begin < offset {
            assert forall|j: int| 0 <= j < front.len() implies (#[trigger] front[j]).begin
                < offset by {
                assert(bs[j].end <= bs.last().begin);
            }
            lemma_breaks_before_is(front, offset, front.len() as int);
        } else {
            assert forall|j: int| 0 <= j < k implies (#[trigger] bs[j]).begin < offset by {
                assert(front[j].begin < offset);
            }
            assert forall|j: int| k <= j < bs.len() implies (#[trigger] bs[j]).begin
                >= offset by {
                if j < front.len() {
                    assert(front[j].begin >= offset);
                }
            }
        }
    }
}

} // verus!
