//! A string wrapper that caches character-index metadata so that the nth
//! Unicode scalar value of a UTF-8 text can be found in roughly constant
//! time, without decoding the text from the start on every lookup.

mod encoding;
mod index;
mod owned;

pub use encoding::spec_get_char;
pub use owned::OwnedIndexedChars;
pub use owned::lemma_lookup_in_range;
pub use owned::lemma_round_trip;
pub use owned::lemma_same_text_same_lookups;
