//! Positions in a source text.
//!
//! A [`SourceText`] owns a text and turns byte offsets into it into line
//! numbers (counted from one), line starts and columns (counted from zero,
//! in scalar values), and line numbers back into offsets. A line ends at a
//! line feed, a carriage return, a carriage return directly followed by a
//! line feed, U+2028 or U+2029.
//!
//! What the queries return is defined over the text as a sequence of scalar
//! values in [`line_breaks`]; [`line_laws`] holds what follows from those
//! definitions for every text. So that a query need not scan the whole text,
//! the line starts are sampled at three rates into the checkpoint tiers of
//! [`line_skips`]. Text is read through a [`CharacterReader`], which keeps
//! track of the byte index it has reached; [`encoding`] relates byte
//! offsets to scalar values.

pub mod character_reader;
pub mod character_validator;
pub mod encoding;
pub mod line_breaks;
pub mod line_laws;
pub mod line_skips;
pub mod source_text;

pub use character_reader::CharacterReader;
pub use character_validator::CharacterValidator;
pub use source_text::SourceText;
