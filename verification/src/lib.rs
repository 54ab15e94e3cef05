//! Weighted prefix trees for autocomplete: for any prefix, the heaviest words
//! that start with it, heaviest first.
//!
//! A [`WeightedTrie`] is filled by [`WeightedTrie::insert`] or built from a
//! vocabulary by [`WeightedTrie::build`], and asked by
//! [`WeightedTrie::search`]. What these do is stated over [`model::TrieView`],
//! the trie as a mathematical value; the laws that follow are proved in
//! [`model`] and [`ranking`].
//!
//! The parts of a trie, leaves first:
//! - [`ranking`]: the rules of a ranked list;
//! - [`suggestions`]: the ranked list of one node, in packed form;
//! - [`children`]: the child table of one node;
//! - [`words`]: the store of distinct words;
//! - [`trie`]: the arena of nodes, insert, search and bulk build;
//! - [`stats`] and [`room`]: what a trie holds in memory.
pub mod children;
pub mod model;
pub mod ranking;
pub mod room;
pub mod stats;
pub mod suggestions;
pub mod trie;
pub mod words;

pub use stats::MemoryStats;
pub use trie::TrieNode;
pub use trie::WeightedString;
pub use trie::WeightedTrie;
