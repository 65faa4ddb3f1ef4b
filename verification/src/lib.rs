//! Unicode grapheme-cluster and word segmentation (UAX #29) over contiguous
//! strings and over non-contiguous UTF-8 chunks.

pub mod grapheme;
pub mod grapheme_cursor;
pub mod grapheme_rules;
pub mod utf8_len;
pub mod word;
pub mod word_ascii;
pub mod word_cat;
pub mod word_cursor;
pub mod word_cursor_forward;
pub mod word_cursor_reverse;
pub mod word_agree;
pub mod word_zwj;
pub mod word_directions;

pub use word::{
    new_unicode_word_indices, new_unicode_words, new_word_bound_indices, new_word_bounds,
    UWordBoundIndices, UWordBounds, UnicodeWordIndices, UnicodeWords,
};
pub use word_cursor::{WordCursor, WordCursorError, WordCursorResult};
pub use grapheme::{new_grapheme_indices, GraphemeIndices};
pub use grapheme_cursor::{GraphemeCursor, GraphemeIncomplete};
