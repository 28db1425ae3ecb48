//! A forward-only reader over the scalar values of a string slice that keeps
//! track of the byte position it has reached.

use vstd::prelude::*;
use vstd::utf8::*;
use crate::encoding::{
    char_width, encoded_len, encoded_width, lemma_byte_offset_split, lemma_byte_offset_step,
    lemma_char_boundary, lemma_encode_injective, utf8_len,
};

verus! {

/// What a reader stands for: the byte index it has reached and the scalar
/// values it has yet to yield.
pub struct ReaderView {
    pub index: nat,
    pub remaining: Seq<char>,
}

impl ReaderView {
    /// The scalar value that comes next, if any.
    pub open spec fn peek(self) -> Option<char> {
        if self.remaining.len() > 0 {
            Some(self.remaining[0])
        } else {
            None
        }
    }

    /// The scalar value that comes next, or U+0000 at the end.
    pub open spec fn peek_or_zero(self) -> char {
        if self.remaining.len() > 0 {
            self.remaining[0]
        } else {
            '\0'
        }
    }

    /// The reader after one read: past the next scalar value, or unchanged at
    /// the end.
    pub open spec fn advance(self) -> ReaderView {
        if self.remaining.len() > 0 {
            ReaderView {
                index: self.index + char_width(self.remaining[0]),
                remaining: self.remaining.drop_first(),
            }
        } else {
            self
        }
    }
}

/// Reads a string slice one code point at a time, from its start on.
#[derive(Clone, Copy)]
pub struct CharacterReader<'a> {
    /// Length in bytes of the string that the reader was made for.
    length: usize,
    /// The part of the string that has not been read.
    rest: &'a str,
}

impl<'a> View for CharacterReader<'a> {
    type V = ReaderView;

    /// The index starts at zero and grows by the width of each code point
    /// read.
    closed spec fn view(&self) -> ReaderView {
        ReaderView {
            index: (self.length - utf8_len(self.rest@)) as nat,
            remaining: self.rest@,
        }
    }
}

impl<'a> CharacterReader<'a> {
    #[verifier::type_invariant]
    spec fn well_formed(&self) -> bool {
        utf8_len(self.rest@) <= self.length
    }

    /// Constructs a reader at the start of `value`.
    pub fn new(value: &'a str) -> (reader: Self)
        ensures
            reader@.index == 0,
            reader@.remaining == value@,
            utf8_len(value@) <= usize::MAX,
    {
        CharacterReader { length: encoded_len(value), rest: value }
    }

    /// Indicates if there are remaining code points to read.
    pub fn has_remaining(&self) -> (b: bool)
        ensures
            b == (self@.remaining.len() > 0),
    {
        !self.rest.is_empty()
    }

    /// Indicates if the reader has reached the end of the string.
    pub fn _reached_end(&self) -> (b: bool)
        ensures
            b == (self@.remaining.len() == 0),
    {
        self.rest.is_empty()
    }

    /// Returns the current index in the string: the byte index of the code
    /// point that comes next, or the length of the string at its end.
    pub fn index(&self) -> (i: usize)
        ensures
            i == self@.index,
            i + utf8_len(self@.remaining) <= usize::MAX,
    {
        proof {
            use_type_invariant(self);
        }
        self.length - encoded_len(self.rest)
    }

    /// Returns the next code point and moves past it, or `None` at the end.
    pub fn next(&mut self) -> (r: Option<char>)
        ensures
            r == old(self)@.peek(),
            final(self)@ == old(self)@.advance(),
    {
        proof {
            use_type_invariant(&*self);
        }
        if self.rest.is_empty() {
            None
        } else {
            let c = self.rest.get_char(0);
            let width = encoded_width(c);
            proof {
                let s = self.rest@;
                lemma_byte_offset_step(s, 0);
                lemma_char_boundary(s, 1);
                lemma_byte_offset_split(s, 1);
            }
            let (_, tail) = self.rest.split_at(width);
            proof {
                let s = self.rest@;
                assert(encode_utf8(s).subrange(width as int, encode_utf8(s).len() as int)
                    =~= encode_utf8(s.skip(1)));
                lemma_encode_injective(tail@, s.skip(1));
            }
            self.rest = tail;
            Some(c)
        }
    }

    /// Returns the next code point. If there are no code points
    /// available, returns U+00.
    pub fn next_or_zero(&mut self) -> (c: char)
        ensures
            c == old(self)@.peek_or_zero(),
            final(self)@ == old(self)@.advance(),
    {
        match self.next() {
            Some(c) => c,
            None => '\0',
        }
    }

    /// Peeks the next code point. If there are no code points
    /// available, returns U+00.
    pub fn peek_or_zero(&self) -> (c: char)
        ensures
            c == self@.peek_or_zero(),
    {
        if self.rest.is_empty() {
            '\0'
        } else {
            self.rest.get_char(0)
        }
    }
}

impl<'a> From<&'a str> for CharacterReader<'a> {
    /// Constructs a `CharacterReader` from a string.
    fn from(value: &'a str) -> (reader: Self)
        ensures
            reader@.index == 0,
            reader@.remaining == value@,
    {
        CharacterReader { length: encoded_len(value), rest: value }
    }
}

impl<'a> vstd::std_specs::convert::FromSpecImpl<&'a str> for CharacterReader<'a> {
    open spec fn obeys_from_spec() -> bool {
        true
    }

    closed spec fn from_spec(value: &'a str) -> Self {
        CharacterReader { length: utf8_len(value@) as usize, rest: value }
    }
}

impl<'a> From<&'a String> for CharacterReader<'a> {
    /// Constructs a `CharacterReader` from a string.
    fn from(value: &'a String) -> (reader: Self)
        ensures
            reader@.index == 0,
            reader@.remaining == value@,
    {
        CharacterReader { length: encoded_len(value.as_str()), rest: value.as_str() }
    }
}

impl<'a> vstd::std_specs::convert::FromSpecImpl<&'a String> for CharacterReader<'a> {
    /// The reader borrows a slice of the string, which ghost code has no
    /// name for: what `from` returns is stated by its own `ensures`.
    open spec fn obeys_from_spec() -> bool {
        false
    }

    open spec fn from_spec(value: &'a String) -> Self {
        choose|reader: Self| reader@.index == 0 && reader@.remaining == value@
    }
}

} // verus!
