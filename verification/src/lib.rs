//! Fuzzy autocomplete over a ranked dictionary.
//!
//! The library builds an immutable, lexicographically sorted word-to-rank
//! store from (word, frequency) pairs, and answers queries with the words
//! that lie within a bounded Levenshtein distance of the query, in key
//! order, truncated to a configured maximum count.

pub mod codec;
pub mod dictionary;
pub mod edits;
pub mod lex;
pub mod matcher;
pub mod suggest;
