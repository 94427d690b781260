//! A fixed-capacity circular buffer for UTF-8 log text.
//!
//! The buffer accepts a stream of text and keeps the most recently written
//! bytes, silently overwriting the oldest ones once the capacity is exhausted.
//! On demand it linearizes the storage in place and hands out the readable
//! text: the valid bytes from the first UTF-8 lead byte onward, so the result
//! never starts in the middle of a multi-byte character whose first bytes were
//! overwritten.

mod tail;
mod buffer;

pub use buffer::LogBuffer;
pub use tail::{
    is_lead_byte, first_lead, tail_valid, last_window, extracted_text, lemma_first_lead_bounds,
    lemma_first_lead_at, lemma_valid_suffix_tail_valid, lemma_tail_valid_append,
    lemma_tail_valid_skip, lemma_tail_valid_window, lemma_last_window_append, lemma_round_trip,
    lemma_overflow_window, lemma_orphan_prefix_short, lemma_empty_extract,
};
