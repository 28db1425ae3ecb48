//! Byte lengths and byte offsets of text under UTF-8.
//!
//! A text is modelled as its sequence of scalar values. Offsets into it are
//! offsets into its UTF-8 encoding, which is what `str` indexes by.

use vstd::prelude::*;
use vstd::utf8::*;

verus! {

/// Number of bytes that encode `c`.
pub open spec fn char_width(c: char) -> nat {
    encode_scalar(c as u32).len()
}

/// Number of bytes that encode `s`.
pub open spec fn utf8_len(s: Seq<char>) -> nat {
    encode_utf8(s).len()
}

/// Byte offset at which the scalar value with index `i` begins; for
/// `i == s.len()` the length of the whole encoding.
pub open spec fn byte_offset(s: Seq<char>, i: int) -> nat {
    utf8_len(s.take(i))
}

/// Number of scalar values of `s` that begin before byte offset `offset`.
pub open spec fn char_index(s: Seq<char>, offset: int) -> nat
    decreases s.len(),
{
    if s.len() == 0 || offset <= 0 {
        0
    } else {
        1 + char_index(s.drop_first(), offset - char_width(s[0]))
    }
}

/// A scalar value takes one to four bytes, by its range.
pub proof fn lemma_char_width(c: char)
    ensures
        char_width(c) == if c <= '\u{7F}' {
            1nat
        } else if c <= '\u{7FF}' {
            2nat
        } else if c <= '\u{FFFF}' {
            3nat
        } else {
            4nat
        },
        1 <= char_width(c) <= 4,
{
}

/// The encoding of a non-empty text is the encoding of its first scalar
/// value followed by the encoding of the rest.
pub proof fn lemma_utf8_len_first(s: Seq<char>)
    requires
        s.len() > 0,
    ensures
        utf8_len(s) == char_width(s[0]) + utf8_len(s.drop_first()),
{
}

/// A text has at least one byte and at most four for each scalar value.
pub proof fn lemma_utf8_len_bounds(s: Seq<char>)
    ensures
        s.len() <= utf8_len(s) <= 4 * s.len(),
    decreases s.len(),
{
    if s.len() > 0 {
        lemma_char_width(s[0]);
        lemma_utf8_len_bounds(s.drop_first());
    }
}

/// Encoding distributes over concatenation.
pub proof fn lemma_encode_concat(a: Seq<char>, b: Seq<char>)
    ensures
        encode_utf8(a + b) == encode_utf8(a) + encode_utf8(b),
        utf8_len(a + b) == utf8_len(a) + utf8_len(b),
    decreases a.len(),
{
    if a.len() > 0 {
        assert((a + b).drop_first() =~= a.drop_first() + b);
        lemma_encode_concat(a.drop_first(), b);
    }
}

/// Two texts with the same encoding are the same text.
pub proof fn lemma_encode_injective(a: Seq<char>, b: Seq<char>)
    requires
        encode_utf8(a) == encode_utf8(b),
    ensures
        a == b,
{
    encode_utf8_decode_utf8(a);
    encode_utf8_decode_utf8(b);
}

/// A text splits at any index into a prefix and a suffix whose lengths add up.
pub proof fn lemma_byte_offset_split(s: Seq<char>, i: int)
    requires
        0 <= i <= s.len(),
    ensures
        utf8_len(s) == byte_offset(s, i) + utf8_len(s.skip(i)),
        encode_utf8(s) == encode_utf8(s.take(i)) + encode_utf8(s.skip(i)),
{
    assert(s =~= s.take(i) + s.skip(i));
    lemma_encode_concat(s.take(i), s.skip(i));
}

/// Byte offsets grow with the index: by exactly the width of each scalar value.
pub proof fn lemma_byte_offset_step(s: Seq<char>, i: int)
    requires
        0 <= i < s.len(),
    ensures
        byte_offset(s, i + 1) == byte_offset(s, i) + char_width(s[i]),
{
    assert(s.take(i + 1) =~= s.take(i) + seq![s[i]]);
    lemma_encode_concat(s.take(i), seq![s[i]]);
    lemma_utf8_len_first(seq![s[i]]);
}

/// Byte offsets are strictly increasing in the index.
pub proof fn lemma_byte_offset_increasing(s: Seq<char>, i: int, j: int)
    requires
        0 <= i < j <= s.len(),
    ensures
        byte_offset(s, i) < byte_offset(s, j),
    decreases j - i,
{
    lemma_byte_offset_step(s, j - 1);
    lemma_char_width(s[j - 1]);
    if i < j - 1 {
        lemma_byte_offset_increasing(s, i, j - 1);
    }
}

/// The offset of a later scalar value is the width of the first one plus
/// its offset in the rest.
pub proof fn lemma_byte_offset_first(s: Seq<char>, i: int)
    requires
        1 <= i <= s.len(),
    ensures
        byte_offset(s, i) == char_width(s[0]) + byte_offset(s.drop_first(), i - 1),
{
    assert(s.take(i).drop_first() =~= s.drop_first().take(i - 1));
    lemma_utf8_len_first(s.take(i));
}

/// The offset of a scalar value is the offset of an earlier one plus its
/// offset in the text that begins there.
pub proof fn lemma_byte_offset_add(s: Seq<char>, n: int, j: int)
    requires
        0 <= n,
        0 <= j,
        n + j <= s.len(),
    ensures
        byte_offset(s, n + j) == byte_offset(s, n) + byte_offset(s.skip(n), j),
{
    assert(s.take(n + j) =~= s.take(n) + s.skip(n).take(j));
    lemma_encode_concat(s.take(n), s.skip(n).take(j));
}

/// The scalar values that begin before an offset are those up to an earlier
/// boundary and those that begin before it in the text from there.
pub proof fn lemma_char_index_skip(s: Seq<char>, n: int, offset: int)
    requires
        0 <= n <= s.len(),
        byte_offset(s, n) <= offset,
    ensures
        char_index(s, offset) == n + char_index(s.skip(n), offset - byte_offset(s, n)),
    decreases n,
{
    if n == 0 {
        assert(s.skip(0) =~= s);
    } else {
        lemma_byte_offset_first(s, n);
        lemma_char_width(s[0]);
        lemma_char_index_skip(s.drop_first(), n - 1, offset - char_width(s[0]));
        assert(s.drop_first().skip(n - 1) =~= s.skip(n));
    }
}

/// `char_index(s, offset)` is the one index `m` such that the scalar value
/// before it begins before `offset` and the one at it does not.
pub proof fn lemma_char_index_is(s: Seq<char>, offset: int, m: int)
    requires
        0 <= m <= s.len(),
        m > 0 ==> byte_offset(s, m - 1) < offset,
        m < s.len() ==> offset <= byte_offset(s, m),
    ensures
        char_index(s, offset) == m,
    decreases s.len(),
{
    if m > 0 {
        if m > 1 {
            lemma_byte_offset_first(s, m - 1);
        }
        if m < s.len() {
            lemma_byte_offset_first(s, m);
        }
        lemma_char_index_is(s.drop_first(), offset - char_width(s[0]), m - 1);
    }
}

/// Where a scalar value begins, `str` may be split.
pub proof fn lemma_char_boundary(s: Seq<char>, i: int)
    requires
        0 <= i <= s.len(),
    ensures
        is_char_boundary(encode_utf8(s), byte_offset(s, i) as int),
    decreases s.len(),
{
    encode_utf8_valid_utf8(s);
    if i > 0 {
        let rest = s.drop_first();
        lemma_byte_offset_first(s, i);
        lemma_byte_offset_split(s, i);
        lemma_char_width(s[0]);
        encode_utf8_first_scalar(s);
        assert(pop_first_scalar(encode_utf8(s)) =~= encode_utf8(rest));
        lemma_char_boundary(rest, i - 1);
    }
}

/// Number of bytes that encode `c`.
pub fn encoded_width(c: char) -> (width: usize)
    ensures
        width == char_width(c),
{
    proof {
        lemma_char_width(c);
    }
    if c <= '\u{7F}' {
        1
    } else if c <= '\u{7FF}' {
        2
    } else if c <= '\u{FFFF}' {
        3
    } else {
        4
    }
}

/// Number of bytes in `text`.
pub fn encoded_len(text: &str) -> (len: usize)
    ensures
        len == utf8_len(text@),
{
    text.as_bytes().len()
}

} // verus!
