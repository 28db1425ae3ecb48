//! What holds of the line structure of every text: how line boundaries
//! count, and how line numbers, line starts and columns relate.

use vstd::prelude::*;
use crate::character_validator::is_line_terminator;
use crate::encoding::{
    byte_offset, char_index, lemma_byte_offset_add, lemma_byte_offset_split, utf8_len,
};
use crate::line_breaks::{
    begins_before, column, head_chars, inside_line_break, lemma_breaks_before_is,
    lemma_breaks_before_split, lemma_head_chars, lemma_line_breaks_ordered,
    lemma_line_start_suffix, line_breaks, line_breaks_from, line_count, line_number, line_offset,
    line_start, line_starts, LineBreak,
};

verus! {

/// Where a text begins does not change its boundaries but for their
/// offsets, which move along with it.
pub proof fn lemma_line_breaks_shift(s: Seq<char>, base: int, delta: int)
    ensures
        line_breaks_from(s, base + delta).len() == line_breaks_from(s, base).len(),
        forall|j: int|
            0 <= j < line_breaks_from(s, base).len() ==> (#[trigger] line_breaks_from(
                s,
                base + delta,
            )[j]) == (LineBreak {
                begin: line_breaks_from(s, base)[j].begin + delta,
                end: line_breaks_from(s, base)[j].end + delta,
            }),
    decreases s.len(),
{
    if s.len() > 0 {
        let n = head_chars(s);
        lemma_head_chars(s);
        lemma_line_breaks_shift(s.skip(n), base + byte_offset(s, n), delta);
    }
}

/// A text may be cut anywhere but between a carriage return and the line
/// feed that follows it: its boundaries are then those of the first part
/// followed by those of the second.
pub proof fn lemma_line_breaks_concat(a: Seq<char>, b: Seq<char>, base: int)
    requires
        !(a.len() > 0 && a.last() == '\r' && b.len() > 0 && b[0] == '\n'),
    ensures
        line_breaks_from(a + b, base) == line_breaks_from(a, base) + line_breaks_from(
            b,
            base + utf8_len(a),
        ),
    decreases a.len(),
{
    if a.len() > 0 {
        let s = a + b;
        let n = head_chars(a);
        let next = base + byte_offset(a, n);
        lemma_head_chars(a);
        lemma_byte_offset_split(a, n);
        assert(s.take(n) =~= a.take(n));
        assert(s.skip(n) =~= a.skip(n) + b);
        lemma_line_breaks_concat(a.skip(n), b, next);
        let tail = line_breaks_from(b, base + utf8_len(a));
        if is_line_terminator(a[0]) {
            let head = seq![LineBreak { begin: base, end: next }];
            assert(head + (line_breaks_from(a.skip(n), next) + tail) =~= (head
                + line_breaks_from(a.skip(n), next)) + tail);
        }
    }
}

/// `t` is one line boundary: a line feed, a carriage return, the two in
/// that order, U+2028 or U+2029.
pub open spec fn is_line_break(t: Seq<char>) -> bool {
    ||| t =~= seq!['\n']
    ||| t =~= seq!['\r']
    ||| t =~= seq!['\r', '\n']
    ||| t =~= seq!['\u{2028}']
    ||| t =~= seq!['\u{2029}']
}

/// A text that is one line boundary has that boundary and no other.
pub proof fn lemma_one_line_break(t: Seq<char>, base: int)
    requires
        is_line_break(t),
    ensures
        line_breaks_from(t, base) == seq![LineBreak { begin: base, end: base + utf8_len(t) }],
{
    let n = head_chars(t);
    assert(t.take(n) =~= t);
    let next = base + byte_offset(t, n);
    assert(line_breaks_from(t.skip(n), next) =~= Seq::<LineBreak>::empty());
}

/// A carriage return with its line feed counts as one line boundary, and so
/// does a line feed without a carriage return before it, a carriage return
/// without a line feed after it, U+2028 and U+2029: between two texts, each
/// adds one boundary to theirs, and so joins their lines into one fewer.
pub proof fn lemma_line_break_counts_once(a: Seq<char>, t: Seq<char>, b: Seq<char>)
    requires
        is_line_break(t),
        t =~= seq!['\n'] ==> !(a.len() > 0 && a.last() == '\r'),
        t =~= seq!['\r'] ==> !(b.len() > 0 && b[0] == '\n'),
    ensures
        line_breaks(t).len() == 1,
        line_breaks(a + t + b).len() == line_breaks(a).len() + 1 + line_breaks(b).len(),
        line_count(a + t + b) == line_count(a) + line_count(b),
{
    lemma_one_line_break(t, 0);
    lemma_one_line_break(t, utf8_len(a) as int);
    lemma_line_breaks_shift(b, 0, utf8_len(a + t) as int);
    lemma_line_breaks_concat(a, t, 0);
    lemma_line_breaks_concat(a + t, b, 0);
}

/// The scalar value with index `i` is the last of a line boundary: a
/// terminator, but not a carriage return with a line feed directly behind it.
pub open spec fn ends_line(s: Seq<char>, i: int) -> bool {
    &&& 0 <= i < s.len()
    &&& is_line_terminator(s[i])
    &&& !(s[i] == '\r' && i + 1 < s.len() && s[i + 1] == '\n')
}

/// In a text that begins at `base`, a boundary ends behind the scalar value
/// with index `i`, where that value is the last of a boundary.
proof fn lemma_break_after_terminator(s: Seq<char>, base: int, i: int) -> (j: int)
    requires
        ends_line(s, i),
    ensures
        0 <= j < line_breaks_from(s, base).len(),
        line_breaks_from(s, base)[j].end == base + byte_offset(s, i + 1),
    decreases s.len(),
{
    let n = head_chars(s);
    lemma_head_chars(s);
    if i < n {
        0
    } else {
        let rest = s.skip(n);
        let next = base + byte_offset(s, n);
        let j_rest = lemma_break_after_terminator(rest, next, i - n);
        lemma_byte_offset_add(s, n, i - n + 1);
        if is_line_terminator(s[0]) {
            j_rest + 1
        } else {
            j_rest
        }
    }
}

/// The first boundary of a text that begins at `base` ends behind a scalar
/// value that is the last of a boundary.
proof fn lemma_first_break_ends_line(s: Seq<char>, base: int) -> (i: int)
    requires
        line_breaks_from(s, base).len() > 0,
    ensures
        ends_line(s, i),
        line_breaks_from(s, base)[0].end == base + byte_offset(s, i + 1),
    decreases s.len(),
{
    let n = head_chars(s);
    lemma_head_chars(s);
    if is_line_terminator(s[0]) {
        n - 1
    } else {
        let rest = s.skip(n);
        let i_rest = lemma_first_break_ends_line(rest, base + byte_offset(s, n));
        lemma_byte_offset_add(s, n, i_rest + 1);
        i_rest + 1
    }
}

/// A line begins behind every terminator but a carriage return that has a
/// line feed directly behind it: such a pair is one boundary, and the line
/// begins behind the line feed.
pub proof fn lemma_line_starts_after_terminator(s: Seq<char>, i: int) -> (line: int)
    requires
        ends_line(s, i),
    ensures
        2 <= line <= line_count(s),
        line_offset(s, line) == Some(byte_offset(s, i + 1) as int),
{
    lemma_break_after_terminator(s, 0, i) + 2
}

/// No line but the first begins anywhere else: every later line begins
/// behind a terminator that is not a carriage return with a line feed
/// directly behind it.
pub proof fn lemma_line_start_follows_terminator(s: Seq<char>, line: int) -> (i: int)
    requires
        2 <= line <= line_count(s),
    ensures
        ends_line(s, i),
        line_offset(s, line) == Some(byte_offset(s, i + 1) as int),
{
    let bs = line_breaks(s);
    let k = line - 2;
    lemma_line_start_suffix(s, 0, k);
    let p = if k == 0 {
        0
    } else {
        bs[k - 1].end
    };
    let i0 = char_index(s, p) as int;
    let t = s.skip(i0);
    let i_t = lemma_first_break_ends_line(t, p);
    lemma_byte_offset_add(s, i0, i_t + 1);
    i0 + i_t
}

/// The line number does not fall as the offset grows.
pub proof fn lemma_line_number_monotonic(s: Seq<char>, a: int, b: int)
    requires
        a <= b,
    ensures
        line_number(s, a) <= line_number(s, b),
{
    let bs = line_breaks(s);
    lemma_line_breaks_ordered(s, 0);
    lemma_breaks_before_split(bs, 0, utf8_len(s) as int, a);
    lemma_breaks_before_split(bs, 0, utf8_len(s) as int, b);
    let ka = bs.filter(begins_before(a)).len();
    let kb = bs.filter(begins_before(b)).len();
    if kb < ka {
        assert(bs[kb as int].begin >= b);
    }
}

/// The line of an offset is a line of the text.
pub proof fn lemma_line_number_within(s: Seq<char>, offset: int)
    ensures
        1 <= line_number(s, offset) <= line_count(s),
        line_offset(s, line_number(s, offset) as int) == Some(line_start(s, offset)),
{
    line_breaks(s).lemma_filter_len(begins_before(offset));
}

/// At the offset where a line begins, the line number is that line's, the
/// line start is the offset itself, and the offset of that line is the
/// offset again.
pub proof fn lemma_line_start_round_trip(s: Seq<char>, line: int, offset: int)
    requires
        line_offset(s, line) == Some(offset),
    ensures
        line_number(s, offset) == line,
        line_offset(s, line_number(s, offset) as int) == Some(offset),
        line_start(s, offset) == offset,
{
    let bs = line_breaks(s);
    lemma_line_breaks_ordered(s, 0);
    lemma_breaks_before_is(bs, offset, line - 1);
}

/// The column of the offset where a line begins is zero.
pub proof fn lemma_column_of_line_start(s: Seq<char>, line: int, offset: int)
    requires
        line_offset(s, line) == Some(offset),
    ensures
        column(s, offset) == 0,
{
    lemma_line_start_round_trip(s, line, offset);
}

/// For an offset that is not inside a line boundary, the line start is at
/// or before the offset, and it is the last place at or before the offset
/// where a line begins: just behind the last boundary that ends there, or
/// zero where there is none.
pub proof fn lemma_line_start_is_nearest(s: Seq<char>, offset: int)
    requires
        0 <= offset,
        !inside_line_break(s, offset),
    ensures
        line_start(s, offset) <= offset,
        line_offset(s, line_number(s, offset) as int) == Some(line_start(s, offset)),
        forall|i: int|
            0 <= i < line_count(s) && #[trigger] line_starts(s)[i] <= offset ==> line_starts(s)[i]
                <= line_start(s, offset),
{
    lemma_line_breaks_ordered(s, 0);
    lemma_breaks_before_split(line_breaks(s), 0, utf8_len(s) as int, offset);
}

} // verus!
