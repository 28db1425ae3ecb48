//! Classification of line-terminator characters.

use vstd::prelude::*;

verus! {

/// A scalar value ends a line iff it is line feed, carriage return,
/// line separator (U+2028) or paragraph separator (U+2029).
pub open spec fn is_line_terminator(ch: char) -> bool {
    ch == '\u{0A}' || ch == '\u{0D}' || ch == '\u{2028}' || ch == '\u{2029}'
}

/// Tells characters apart by what they mean in source text.
pub struct CharacterValidator;

impl CharacterValidator {
    /// Tells whether `ch` is a line terminator. A carriage return followed by a
    /// line feed is one line boundary; pairing the two is left to the caller.
    pub fn is_line_terminator(ch: char) -> (b: bool)
        ensures
            b == is_line_terminator(ch),
    {
        ch == '\u{0A}' || ch == '\u{0D}' || ch == '\u{2028}' || ch == '\u{2029}'
    }
}

} // verus!
