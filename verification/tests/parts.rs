use weighted_trie::children::{ChildTable, INLINE_CAPACITY};
use weighted_trie::room::{bytes_for, clamped_sum};
use weighted_trie::suggestions::{pack, weight_of, word_of, Suggestions};
use weighted_trie::words::WordStore;
use weighted_trie::{TrieNode, WeightedTrie};

fn entries(list: &Suggestions) -> Vec<(u32, usize)> {
    (0..list.len()).map(|i| (list.weight_at(i), list.word_at(i))).collect()
}

#[test]
fn packing_puts_weight_above_word() {
    assert_eq!(pack(0, 0), 0);
    assert_eq!(pack(0, 7), 7);
    assert_eq!(pack(1, 0), 1u128 << 64);
    assert_eq!(pack(5, 3), (5u128 << 64) + 3);
    assert_eq!(pack(u32::MAX, 9), ((u32::MAX as u128) << 64) + 9);
}

#[test]
fn unpacking_gives_back_both_parts() {
    let entry = pack(77, 1234);
    assert_eq!(weight_of(entry), 77);
    assert_eq!(word_of(entry), 1234);
    let largest = pack(u32::MAX, usize::MAX);
    assert_eq!(weight_of(largest), u32::MAX);
    assert_eq!(word_of(largest), usize::MAX);
}

#[test]
fn packed_entries_order_by_weight_first() {
    assert!(pack(2, 0) > pack(1, usize::MAX));
    assert!(pack(2, 1) > pack(2, 0));
}

#[test]
fn suggestions_start_empty() {
    let list = Suggestions::new();
    assert_eq!(list.len(), 0);
}

#[test]
fn suggestions_update_inserts_in_descending_order() {
    let mut list = Suggestions::new();
    list.update(0, 5, 10);
    list.update(1, 2, 10);
    list.update(2, 1, 10);
    list.update(3, 10, 10);
    assert_eq!(entries(&list), vec![(10, 3), (5, 0), (2, 1), (1, 2)]);
}

#[test]
fn suggestions_update_ignores_a_weight_that_is_no_higher() {
    let mut list = Suggestions::new();
    list.update(0, 5, 10);
    list.update(1, 5, 10);
    list.update(0, 5, 10);
    list.update(1, 4, 10);
    assert_eq!(entries(&list), vec![(5, 0), (5, 1)]);
}

#[test]
fn suggestions_update_replaces_a_lighter_entry() {
    let mut list = Suggestions::new();
    list.update(0, 5, 10);
    list.update(1, 3, 10);
    list.update(1, 5, 10);
    assert_eq!(entries(&list), vec![(5, 0), (5, 1)]);
    list.update(1, 6, 10);
    assert_eq!(entries(&list), vec![(6, 1), (5, 0)]);
}

#[test]
fn suggestions_update_cuts_back_to_the_limit() {
    let mut list = Suggestions::new();
    list.update(0, 5, 3);
    list.update(1, 4, 3);
    list.update(2, 3, 3);
    list.update(3, 3, 3);
    assert_eq!(entries(&list), vec![(5, 0), (4, 1), (3, 2)]);
    list.update(4, 9, 3);
    assert_eq!(entries(&list), vec![(9, 4), (5, 0), (4, 1)]);
    list.update(5, 1, 0);
    assert_eq!(entries(&list), vec![(9, 4), (5, 0), (4, 1)]);
}

#[test]
fn suggestions_heap_bytes_cover_the_entries() {
    let mut list = Suggestions::new();
    list.update(0, 5, 3);
    list.update(1, 4, 3);
    assert!(list.heap_bytes() >= 32);
}

#[test]
fn child_table_starts_inline_and_empty() {
    let table = ChildTable::new();
    assert!(table.is_inline());
    assert_eq!(table.get('a'), None);
}

#[test]
fn child_table_set_then_get() {
    let mut table = ChildTable::new();
    table.set('a', 1);
    table.set('b', 2);
    assert_eq!(table.get('a'), Some(1));
    assert_eq!(table.get('b'), Some(2));
    assert_eq!(table.get('c'), None);
    table.set('a', 9);
    assert_eq!(table.get('a'), Some(9));
    assert_eq!(table.get('b'), Some(2));
    assert!(table.is_inline());
}

#[test]
fn child_table_turns_into_a_map_beyond_the_inline_capacity() {
    assert_eq!(INLINE_CAPACITY, 4);
    let mut table = ChildTable::new();
    let labels = ['a', 'b', 'c', 'd'];
    for (i, label) in labels.iter().enumerate() {
        table.set(*label, i + 10);
    }
    assert!(table.is_inline());
    table.set('d', 40);
    assert!(table.is_inline());
    table.set('é', 50);
    assert!(!table.is_inline());
    assert_eq!(table.get('a'), Some(10));
    assert_eq!(table.get('b'), Some(11));
    assert_eq!(table.get('c'), Some(12));
    assert_eq!(table.get('d'), Some(40));
    assert_eq!(table.get('é'), Some(50));
    assert_eq!(table.get('e'), None);
    table.set('a', 60);
    table.set('z', 70);
    assert_eq!(table.get('a'), Some(60));
    assert_eq!(table.get('z'), Some(70));
    assert!(!table.is_inline());
}

#[test]
fn word_store_gives_each_word_one_identity() {
    let mut store = WordStore::new();
    assert_eq!(store.len(), 0);
    assert_eq!(store.intern("pie"), 0);
    assert_eq!(store.intern("pita"), 1);
    assert_eq!(store.intern("pie"), 0);
    assert_eq!(store.intern(""), 2);
    assert_eq!(store.intern("pita"), 1);
    assert_eq!(store.len(), 3);
    assert_eq!(store.resolve(0), "pie");
    assert_eq!(store.resolve(1), "pita");
    assert_eq!(store.resolve(2), "");
}

#[test]
fn word_store_counts_bytes_not_characters() {
    let mut store = WordStore::with_capacity(4);
    store.intern("pie");
    store.intern("äö");
    assert_eq!(store.storage_bytes(), 7);
    assert!(store.capacity_bytes() >= 7);
    store.release_excess();
    assert_eq!(store.storage_bytes(), 7);
    assert_eq!(store.resolve(1), "äö");
}

#[test]
fn byte_figures_stop_at_the_largest_machine_word() {
    assert_eq!(bytes_for(3, 16), 48);
    assert_eq!(bytes_for(0, 16), 0);
    assert_eq!(bytes_for(usize::MAX, 2), usize::MAX);
    assert_eq!(clamped_sum(40, 2), 42);
    assert_eq!(clamped_sum(usize::MAX, 1), usize::MAX);
    assert_eq!(clamped_sum(usize::MAX - 1, 1), usize::MAX);
}

#[test]
fn new_node_is_empty() {
    let node = TrieNode::new();
    assert!(node.children.is_inline());
    assert_eq!(node.children.get('a'), None);
    assert_eq!(node.suggestions.len(), 0);
}

#[test]
fn memory_stats_of_an_empty_trie() {
    let trie = WeightedTrie::new();
    let stats = trie.memory_stats();
    assert_eq!(stats.nodes_count, 1);
    assert!(stats.nodes_vec_capacity >= 1);
    assert_eq!(stats.suggestions_total, 0);
    assert_eq!(stats.words_count, 0);
    assert_eq!(stats.words_storage_bytes, 0);
    assert_eq!(stats.children_small_count, 1);
    assert_eq!(stats.children_large_count, 0);
}

#[test]
fn memory_stats_count_nodes_words_and_suggestions() {
    let mut trie = WeightedTrie::new();
    trie.insert("pie".to_owned(), 5);
    trie.insert("pita".to_owned(), 2);
    trie.insert("pi".to_owned(), 1);
    trie.insert("pizza".to_owned(), 10);
    trie.insert("pie".to_owned(), 7);
    let stats = trie.memory_stats();
    // root, p, pi, pie, pit, pita, piz, pizz, pizza
    assert_eq!(stats.nodes_count, 9);
    assert_eq!(stats.words_count, 4);
    assert_eq!(stats.words_storage_bytes, 3 + 4 + 2 + 5);
    // p: 4, pi: 4, pie: 1, pit: 1, pita: 1, piz: 1, pizz: 1, pizza: 1
    assert_eq!(stats.suggestions_total, 14);
    assert!(stats.suggestions_heap_bytes >= 14 * 16);
    assert!(stats.words_capacity_bytes >= stats.words_storage_bytes);
    assert!(stats.nodes_vec_capacity >= stats.nodes_count);
    assert_eq!(stats.nodes_struct_size, stats.nodes_vec_capacity * std::mem::size_of::<TrieNode>());
    assert_eq!(stats.children_small_count, 9);
    assert_eq!(stats.children_large_count, 0);
    assert_eq!(
        stats.total_bytes,
        stats.nodes_struct_size
            + stats.suggestions_heap_bytes
            + stats.words_capacity_bytes
            + stats.children_heap_bytes
    );
    // asking changes nothing
    assert_eq!(trie.search("pi"), vec!["pizza", "pie", "pita", "pi"]);
    assert_eq!(trie.memory_stats().nodes_count, 9);
}

#[test]
fn memory_stats_tell_lists_from_hash_maps_by_the_number_of_children() {
    let mut trie = WeightedTrie::new();
    for word in ["a", "b", "c", "d"] {
        trie.insert(word.to_owned(), 1);
    }
    // the root has four children and is still a list
    let stats = trie.memory_stats();
    assert_eq!(stats.nodes_count, 5);
    assert_eq!(stats.children_small_count, 5);
    assert_eq!(stats.children_large_count, 0);
    // a word under a child that is there adds no child to the root
    trie.insert("ab".to_owned(), 1);
    assert_eq!(trie.memory_stats().children_large_count, 0);
    // the fifth child turns the root into a hash map
    trie.insert("e".to_owned(), 1);
    let stats = trie.memory_stats();
    assert_eq!(stats.nodes_count, 7);
    assert_eq!(stats.children_small_count, 6);
    assert_eq!(stats.children_large_count, 1);
    assert_eq!(trie.search("a"), vec!["a", "ab"]);
    assert_eq!(trie.search("e"), vec!["e"]);
}
