//! A verified in-memory prefix-search index (trie).
//!
//! Strings are inserted one character at a time into a tree whose children
//! are kept sorted by key, and can then be queried for exact existence or
//! for frequency-ranked autocomplete results by prefix.

mod display;
mod laws;
mod order;
mod rank;
mod trie;

pub use laws::{
    lemma_insert_then_contains, lemma_insert_preserves_others, lemma_reinsert_counts,
    lemma_search_empty_prefix, lemma_search_no_match,
};
pub use order::{char_lt, lex_lt};
pub use rank::rank_before;
pub use trie::{Node, Trie};
