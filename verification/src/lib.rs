//! An unbalanced binary search tree keyed through a projection capability.
//!
//! Stored elements supply their own key via the [`Key`] trait; the tree keeps
//! at most one element per key, overwrites on key collision (upsert), and
//! deletes by splicing with the in-order successor. Every operation is
//! specified against a mathematical map from keys to elements.

mod key;
mod laws;
mod tree;

pub use key::Cmp;
pub use key::Key;
pub use key::Record;
pub use laws::lemma_insert_then_find;
pub use laws::lemma_remove_all_empties;
pub use laws::lemma_remove_all_removes;
pub use laws::lemma_upsert_overwrites;
pub use laws::remove_all;
pub use tree::BST;
