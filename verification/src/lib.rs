//! Enumeration of 3x3 letter grids whose rows and columns are all dictionary words,
//! and per-position letter frequencies over the grids found.
//!
//! A [`Dictionary`] is the word list as loaded. [`HashedDictionary::build`] keeps its
//! three-byte entries, each once, and [`PrefixIndex::build`] indexes them by prefix.
//! [`enumerate_grids`] walks all triples of words as rows, skips the row pairs whose
//! columns cannot be completed, and returns the grids whose columns are words too;
//! [`grids_for_row`] is the same search for one first row, the unit that a thread pool
//! hands out. [`count_grids`] and [`count_grids_filtered`] summarise grids in a
//! [`GridLetterCount`]; tables of parts of a collection merge to the table of the whole.

pub mod dictionary;
pub mod frequency;
pub mod grid;
pub mod prefix_index;
pub mod search;
pub mod text;
pub mod word;

pub use dictionary::{Dictionary, HashedDictionary};
pub use frequency::{GridLetterCount, count_grids, count_grids_filtered};
pub use grid::{Grid, GridError};
pub use prefix_index::PrefixIndex;
pub use search::{
    append_pair_grids, enumerate_grids, enumerate_grids_unpruned, grids_for_row, survives_pruning,
};
pub use word::{Word, is_lowercase_word, pack_word, unpack_word, word_from_bytes};
