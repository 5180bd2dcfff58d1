//! A character-level prefix tree: insertion, exact and prefix lookups, and
//! enumeration of the stored strings in ascending order.

mod iter;
mod laws;
mod order;
mod trie;

pub use iter::Iter;
pub use laws::{
    stored_after, lemma_empty_string, lemma_insert_idempotent, lemma_inserted_is_found,
    lemma_listing_complete, lemma_listing_order, lemma_no_shared_start, lemma_prefix_of_stored,
    lemma_stored_after,
};
pub use order::{lex_lt, strictly_ascending, lemma_ascending_no_duplicates, lemma_ascending_unique};
pub use trie::{Trie, insert, lookup, prefix_of_some};
