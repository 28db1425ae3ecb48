//! A source text with an index of its lines, for turning byte offsets into
//! line numbers, line starts and columns, and line numbers into offsets.

use vstd::prelude::*;
use vstd::utf8::*;
use crate::character_reader::CharacterReader;
use crate::character_validator::{is_line_terminator, CharacterValidator};
use crate::encoding::{
    byte_offset, char_index, lemma_byte_offset_increasing, lemma_byte_offset_split,
    lemma_byte_offset_step, lemma_char_boundary, lemma_char_index_is, lemma_encode_injective,
    lemma_utf8_len_bounds, utf8_len,
};
use crate::line_breaks::{
    column, head_chars, lemma_breaks_before_is, lemma_head_chars, lemma_line_breaks_ordered,
    lemma_line_start_suffix, lemma_scan_step, line_breaks, line_breaks_from, line_count,
    line_number, line_offset, line_start, line_starts, ordered_within,
};
use crate::line_laws::lemma_line_number_within;
use crate::line_skips::LineSkips;

verus! {

/// Reads one step of a line scan: the next scalar value and, where that is a
/// carriage return, the line feed that directly follows it. Tells whether
/// the step went over a line boundary.
fn scan_step(characters: &mut CharacterReader) -> (is_break: bool)
    requires
        old(characters)@.remaining.len() > 0,
    ensures
        is_break == is_line_terminator(old(characters)@.remaining[0]),
        final(characters)@.remaining == old(characters)@.remaining.skip(
            head_chars(old(characters)@.remaining),
        ),
        final(characters)@.index == old(characters)@.index + byte_offset(
            old(characters)@.remaining,
            head_chars(old(characters)@.remaining),
        ),
{
    let ghost s = characters@.remaining;
    proof {
        lemma_byte_offset_step(s, 0);
    }
    let ch = characters.next_or_zero();
    if CharacterValidator::is_line_terminator(ch) {
        if ch == '\r' && characters.peek_or_zero() == '\n' {
            proof {
                lemma_byte_offset_step(s, 1);
            }
            characters.next();
        }
        true
    } else {
        false
    }
}

/// Contains source text and line locations.
pub struct SourceText {
    contents: String,
    skips: LineSkips,
}

impl View for SourceText {
    type V = Seq<char>;

    /// The text, as its sequence of scalar values.
    closed spec fn view(&self) -> Seq<char> {
        self.contents@
    }
}

impl SourceText {
    /// The table of checkpoints over the lines of the text.
    pub closed spec fn skips(&self) -> LineSkips {
        self.skips
    }

    #[verifier::type_invariant]
    spec fn well_formed(&self) -> bool {
        &&& self.skips.wf()
        &&& self.skips@ == line_starts(self.contents@)
        &&& utf8_len(self.contents@) <= usize::MAX
    }

    /// Takes `contents` and indexes its lines: one scan from start to end
    /// records where each line begins. The number of lines has to fit the
    /// machine's word.
    pub fn new(contents: String) -> (text: Self)
        requires
            line_count(contents@) <= usize::MAX,
        ensures
            text@ == contents@,
            text.skips().wf(),
            text.skips()@ == line_starts(contents@),
    {
        let skips = Self::process_lines(contents.as_str());
        SourceText { contents, skips }
    }

    /// The text.
    pub fn contents(&self) -> (contents: &String)
        ensures
            contents@ == self@,
    {
        &self.contents
    }

    /// Scans `contents` once from start to end and records where each of
    /// its lines begins.
    fn process_lines(contents: &str) -> (skips: LineSkips)
        requires
            line_count(contents@) <= usize::MAX,
        ensures
            skips.wf(),
            skips@ == line_starts(contents@),
            utf8_len(contents@) <= usize::MAX,
    {
        let ghost text = contents@;
        let ghost bs = line_breaks(text);
        let mut skips = LineSkips::new();
        let mut s = CharacterReader::new(contents);
        let mut line: usize = 1;
        proof {
            lemma_line_breaks_ordered(text, 0);
        }
        while s.has_remaining()
            invariant
                bs == line_breaks(text),
                ordered_within(bs, 0, utf8_len(text) as int),
                bs.len() + 1 <= usize::MAX,
                skips.wf(),
                1 <= line <= bs.len() + 1,
                skips@ == line_starts(text).take(line as int),
                line_breaks_from(s@.remaining, s@.index as int) == bs.skip(line - 1),
                s@.index + utf8_len(s@.remaining) == utf8_len(text) <= usize::MAX,
            decreases s@.remaining.len(),
        {
            proof {
                lemma_scan_step(bs, line - 1, s@.remaining, s@.index as int);
                lemma_head_chars(s@.remaining);
                lemma_byte_offset_split(s@.remaining, head_chars(s@.remaining));
            }
            if scan_step(&mut s) {
                line += 1;
                skips.push_line_skip(line, s.index());
            }
        }
        skips
    }

    /// A reader over the text from the start of line `k + 1`, which is at
    /// `offset`.
    fn reader_at(&self, offset: usize, Ghost(k): Ghost<int>) -> (characters: CharacterReader<'_>)
        requires
            0 <= k < line_count(self@),
            offset == line_starts(self@)[k],
        ensures
            characters@.index == 0,
            characters@.remaining == self@.skip(char_index(self@, offset as int) as int),
            0 <= char_index(self@, offset as int) <= self@.len(),
            byte_offset(self@, char_index(self@, offset as int) as int) == offset,
            line_breaks_from(characters@.remaining, offset as int) == line_breaks(self@).skip(k),
            offset + utf8_len(characters@.remaining) == utf8_len(self@) <= usize::MAX,
    {
        let ghost s = self@;
        let ghost i = char_index(s, offset as int) as int;
        proof {
            use_type_invariant(self);
            lemma_line_start_suffix(s, 0, k);
            lemma_char_boundary(s, i);
            lemma_byte_offset_split(s, i);
        }
        let (_, tail) = self.contents.as_str().split_at(offset);
        proof {
            assert(encode_utf8(s).subrange(offset as int, encode_utf8(s).len() as int)
                =~= encode_utf8(s.skip(i)));
            lemma_encode_injective(tail@, s.skip(i));
        }
        CharacterReader::new(tail)
    }

    /// Retrieves line number from an offset. The resulting line number
    /// is counted from one. An offset inside a line boundary is on the line
    /// that follows the boundary; an offset past the end of the text is on
    /// the last line.
    pub fn get_line_number(&self, offset: usize) -> (line: usize)
        ensures
            line == line_number(self@, offset as int),
            1 <= line <= line_count(self@),
    {
        let ghost s = self@;
        let ghost bs = line_breaks(s);
        proof {
            use_type_invariant(self);
            lemma_line_breaks_ordered(s, 0);
        }
        let last_skip = self.skips.skip_for_offset(offset);
        let mut current_line = last_skip.line_number;
        let mut characters = self.reader_at(last_skip.offset, Ghost(last_skip.line_number - 1));
        proof {
            assert forall|j: int| 0 <= j < current_line - 1 implies (#[trigger] bs[j]).begin
                < offset by {
                assert(bs[j].end <= last_skip.offset);
            }
        }
        while last_skip.offset + characters.index() < offset && characters.has_remaining()
            invariant
                s == self@,
                bs == line_breaks(s),
                ordered_within(bs, 0, utf8_len(s) as int),
                1 <= current_line <= bs.len() + 1 <= usize::MAX,
                line_breaks_from(
                    characters@.remaining,
                    last_skip.offset + characters@.index as int,
                ) == bs.skip(current_line - 1),
                last_skip.offset + characters@.index + utf8_len(characters@.remaining) == utf8_len(
                    s,
                ) <= usize::MAX,
                forall|j: int| 0 <= j < current_line - 1 ==> (#[trigger] bs[j]).begin < offset,
            decreases characters@.remaining.len(),
        {
            proof {
                lemma_scan_step(
                    bs,
                    current_line - 1,
                    characters@.remaining,
                    last_skip.offset + characters@.index as int,
                );
                lemma_head_chars(characters@.remaining);
                lemma_byte_offset_split(characters@.remaining, head_chars(characters@.remaining));
            }
            if scan_step(&mut characters) {
                current_line += 1;
            }
        }
        proof {
            let pos = last_skip.offset + characters@.index as int;
            lemma_line_breaks_ordered(characters@.remaining, pos);
            assert forall|j: int| current_line - 1 <= j < bs.len() implies (#[trigger] bs[j]).begin
                >= offset by {
                assert(bs[j] == bs.skip(current_line - 1)[j - (current_line - 1)]);
            }
            lemma_breaks_before_is(bs, offset as int, current_line - 1);
            lemma_line_number_within(s, offset as int);
        }
        current_line
    }

    /// Retrieves offset from line number (counted from one), or `None`
    /// where the text has no such line.
    pub fn get_line_offset(&self, line: usize) -> (offset: Option<usize>)
        ensures
            offset is Some <==> 1 <= line <= line_count(self@),
            match offset {
                Some(offset) => line_offset(self@, line as int) == Some(offset as int),
                None => line_offset(self@, line as int) is None,
            },
    {
        let ghost s = self@;
        let ghost bs = line_breaks(s);
        proof {
            use_type_invariant(self);
        }
        let last_skip = self.skips.skip_for_line(line);
        let mut current_line = last_skip.line_number;
        let mut characters = self.reader_at(last_skip.offset, Ghost(last_skip.line_number - 1));
        while current_line != line
            invariant
                s == self@,
                bs == line_breaks(s),
                1 <= current_line <= bs.len() + 1 <= usize::MAX,
                line == 0 || current_line <= line,
                line_breaks_from(
                    characters@.remaining,
                    last_skip.offset + characters@.index as int,
                ) == bs.skip(current_line - 1),
                last_skip.offset + characters@.index + utf8_len(characters@.remaining) == utf8_len(
                    s,
                ) <= usize::MAX,
                current_line == line ==> last_skip.offset + characters@.index == line_starts(
                    s,
                )[current_line - 1],
            decreases characters@.remaining.len(),
        {
            if !characters.has_remaining() {
                proof {
                    assert(bs.skip(current_line - 1).len() == 0);
                }
                return None;
            }
            proof {
                lemma_scan_step(
                    bs,
                    current_line - 1,
                    characters@.remaining,
                    last_skip.offset + characters@.index as int,
                );
                lemma_head_chars(characters@.remaining);
                lemma_byte_offset_split(characters@.remaining, head_chars(characters@.remaining));
            }
            if scan_step(&mut characters) {
                current_line += 1;
            }
        }
        Some(last_skip.offset + characters.index())
    }

    /// Retrieves the offset from the corresponding line of an offset: where
    /// the line with the line number of `offset` begins.
    pub fn get_line_offset_from_offset(&self, offset: usize) -> (start: usize)
        ensures
            start == line_start(self@, offset as int),
            line_offset(self@, line_number(self@, offset as int) as int) == Some(start as int),
    {
        let ghost s = self@;
        let ghost bs = line_breaks(s);
        proof {
            use_type_invariant(self);
            lemma_line_breaks_ordered(s, 0);
        }
        let last_skip = self.skips.skip_for_offset(offset);
        let ghost mut k = last_skip.line_number - 1;
        let mut current_line_offset = last_skip.offset;
        let mut characters = self.reader_at(last_skip.offset, Ghost(last_skip.line_number - 1));
        proof {
            assert forall|j: int| 0 <= j < k implies (#[trigger] bs[j]).begin < offset by {
                assert(bs[j].end <= last_skip.offset);
            }
        }
        while last_skip.offset + characters.index() < offset && characters.has_remaining()
            invariant
                s == self@,
                bs == line_breaks(s),
                ordered_within(bs, 0, utf8_len(s) as int),
                0 <= k <= bs.len(),
                current_line_offset == line_starts(s)[k],
                line_breaks_from(
                    characters@.remaining,
                    last_skip.offset + characters@.index as int,
                ) == bs.skip(k),
                last_skip.offset + characters@.index + utf8_len(characters@.remaining) == utf8_len(
                    s,
                ) <= usize::MAX,
                forall|j: int| 0 <= j < k ==> (#[trigger] bs[j]).begin < offset,
            decreases characters@.remaining.len(),
        {
            proof {
                lemma_scan_step(
                    bs,
                    k,
                    characters@.remaining,
                    last_skip.offset + characters@.index as int,
                );
                lemma_head_chars(characters@.remaining);
                lemma_byte_offset_split(characters@.remaining, head_chars(characters@.remaining));
            }
            if scan_step(&mut characters) {
                current_line_offset = last_skip.offset + characters.index();
                proof {
                    k = k + 1;
                }
            }
        }
        proof {
            let pos = last_skip.offset + characters@.index as int;
            lemma_line_breaks_ordered(characters@.remaining, pos);
            assert forall|j: int| k <= j < bs.len() implies (#[trigger] bs[j]).begin
                >= offset by {
                assert(bs[j] == bs.skip(k)[j - k]);
            }
            lemma_breaks_before_is(bs, offset as int, k);
            lemma_line_number_within(s, offset as int);
        }
        current_line_offset
    }

    /// Returns the zero based column of an offset, counted in scalar values
    /// from the start of its line. A scalar value that begins before the
    /// offset counts, also where it ends behind it. The column is zero where
    /// the line begins past the offset, as it does for an offset inside a
    /// line boundary.
    pub fn get_column(&self, offset: usize) -> (col: usize)
        ensures
            col == column(self@, offset as int),
    {
        let ghost s = self@;
        let line_offset = self.get_line_offset_from_offset(offset);
        let target_offset = offset;
        if line_offset > target_offset {
            return 0;
        }
        let ghost first = char_index(s, line_offset as int) as int;
        let ghost mut m = first;
        let mut characters = self.reader_at(
            line_offset,
            Ghost(line_number(s, offset as int) - 1),
        );
        let mut i: usize = 0;
        proof {
            lemma_utf8_len_bounds(s);
            lemma_byte_offset_split(s, m);
        }
        while line_offset + characters.index() < target_offset && characters.has_remaining()
            invariant
                s == self@,
                0 <= first <= m <= s.len() <= usize::MAX,
                byte_offset(s, m) <= utf8_len(s),
                byte_offset(s, first) == line_offset <= target_offset,
                characters@.remaining == s.skip(m),
                line_offset + characters@.index == byte_offset(s, m),
                utf8_len(s) <= usize::MAX,
                i == m - first,
                m > first ==> byte_offset(s, m - 1) < target_offset,
            decreases characters@.remaining.len(),
        {
            proof {
                lemma_byte_offset_step(s, m);
                lemma_byte_offset_split(s, m + 1);
            }
            characters.next();
            i += 1;
            proof {
                m = m + 1;
            }
        }
        proof {
            if first > 0 {
                lemma_byte_offset_increasing(s, first - 1, first);
            }
            lemma_char_index_is(s, target_offset as int, m);
        }
        i
    }
}

} // verus!
