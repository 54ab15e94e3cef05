//! The record that a trie gives of the memory it holds.
use vstd::prelude::*;

verus! {

/// What a trie holds, counted and estimated in bytes. Counts and byte
/// figures that do not fit a machine word are held at the largest one.
pub struct MemoryStats {
    /// The number of nodes in the arena.
    pub nodes_count: usize,
    /// The number of nodes that the arena has room for.
    pub nodes_vec_capacity: usize,
    /// The bytes of the arena: its room times the size of a node.
    pub nodes_struct_size: usize,
    /// The number of suggestions that all nodes hold together.
    pub suggestions_total: usize,
    /// The bytes that the suggestion lists hold room for.
    pub suggestions_heap_bytes: usize,
    /// The number of stored words.
    pub words_count: usize,
    /// The bytes that the stored words take, encoded as UTF-8.
    pub words_storage_bytes: usize,
    /// The bytes that the word store holds room for.
    pub words_capacity_bytes: usize,
    /// The number of nodes whose child table is a list.
    pub children_small_count: usize,
    /// The number of nodes whose child table is a hash map.
    pub children_large_count: usize,
    /// An estimate of the bytes that the child tables hold room for.
    pub children_heap_bytes: usize,
    /// The four byte figures added up.
    pub total_bytes: usize,
}

} // verus!
