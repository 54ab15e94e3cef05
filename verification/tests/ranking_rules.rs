use weighted_trie::trie::WeightedString;
use weighted_trie::WeightedTrie;

fn filled(pairs: &[(&str, u32)]) -> WeightedTrie {
    let mut trie = WeightedTrie::new();
    for (word, weight) in pairs {
        assert!(trie.insert((*word).to_owned(), *weight));
    }
    trie
}

#[test]
fn inserted_word_is_found_at_every_prefix() {
    let trie = filled(&[("pizza", 7)]);
    assert_eq!(trie.search("p"), vec!["pizza"]);
    assert_eq!(trie.search("pi"), vec!["pizza"]);
    assert_eq!(trie.search("piz"), vec!["pizza"]);
    assert_eq!(trie.search("pizz"), vec!["pizza"]);
    assert_eq!(trie.search("pizza"), vec!["pizza"]);
    assert_eq!(trie.search("pizzas").len(), 0);
}

#[test]
fn empty_prefix_has_no_suggestions() {
    let trie = filled(&[("pizza", 7), ("a", 1)]);
    assert_eq!(trie.search("").len(), 0);
}

#[test]
fn empty_word_is_accepted_and_changes_no_search() {
    let mut trie = filled(&[("pi", 3)]);
    assert!(trie.insert(String::new(), 9));
    assert_eq!(trie.search("").len(), 0);
    assert_eq!(trie.search("p"), vec!["pi"]);
    assert_eq!(trie.search("pi"), vec!["pi"]);
}

#[test]
fn reinsert_with_higher_weight_keeps_one_entry() {
    let mut trie = WeightedTrie::new();
    trie.insert("pizza".to_owned(), 5);
    trie.insert("pizza".to_owned(), 10);
    assert_eq!(trie.search("piz"), vec!["pizza"]);
    assert_eq!(trie.search("piz").len(), 1);
}

#[test]
fn reinsert_with_higher_weight_moves_the_word_forward() {
    let mut trie = filled(&[("pie", 5), ("pita", 2), ("pizza", 1)]);
    assert_eq!(trie.search("pi"), vec!["pie", "pita", "pizza"]);
    trie.insert("pizza".to_owned(), 3);
    assert_eq!(trie.search("pi"), vec!["pie", "pizza", "pita"]);
    trie.insert("pizza".to_owned(), 10);
    assert_eq!(trie.search("pi"), vec!["pizza", "pie", "pita"]);
    assert_eq!(trie.search("piz"), vec!["pizza"]);
}

#[test]
fn reinsert_with_lower_or_equal_weight_changes_nothing() {
    let mut trie = filled(&[("pie", 5), ("pita", 5), ("pizza", 1)]);
    let before = trie.search("pi");
    assert_eq!(before, vec!["pie", "pita", "pizza"]);
    trie.insert("pita".to_owned(), 5);
    assert_eq!(trie.search("pi"), before);
    trie.insert("pie".to_owned(), 0);
    assert_eq!(trie.search("pi"), before);
    trie.insert("pie".to_owned(), 4);
    assert_eq!(trie.search("pi"), before);
    assert_eq!(trie.search("pie"), vec!["pie"]);
}

#[test]
fn equal_weights_keep_insertion_order() {
    let trie = filled(&[("ab", 4), ("ac", 4), ("ad", 4), ("aa", 4)]);
    assert_eq!(trie.search("a"), vec!["ab", "ac", "ad", "aa"]);
}

#[test]
fn raised_word_goes_behind_its_equals() {
    let mut trie = filled(&[("ab", 4), ("ac", 4), ("ad", 1)]);
    trie.insert("ad".to_owned(), 4);
    assert_eq!(trie.search("a"), vec!["ab", "ac", "ad"]);
}

#[test]
fn too_long_word_is_rejected_and_changes_nothing() {
    let mut trie = WeightedTrie::with_limits(3, 10);
    assert!(trie.insert("pie".to_owned(), 5));
    assert!(!trie.insert("pita".to_owned(), 50));
    assert_eq!(trie.search("p"), vec!["pie"]);
    assert_eq!(trie.search("pi"), vec!["pie"]);
    assert_eq!(trie.search("pit").len(), 0);
    assert_eq!(trie.search("pita").len(), 0);
    let stats = trie.memory_stats();
    assert_eq!(stats.words_count, 1);
    assert_eq!(stats.nodes_count, 4);
}

#[test]
fn default_limit_rejects_words_over_100_characters() {
    let mut trie = WeightedTrie::new();
    let exact: String = "a".repeat(100);
    let over: String = "a".repeat(101);
    assert!(trie.insert(exact.clone(), 1));
    assert!(!trie.insert(over, 2));
    assert_eq!(trie.search("a"), vec![exact.clone()]);
    assert_eq!(trie.search(&exact), vec![exact]);
}

#[test]
fn word_length_counts_characters() {
    let mut trie = WeightedTrie::with_limits(3, 10);
    assert!(trie.insert("äöü".to_owned(), 1));
    assert!(!trie.insert("äöüß".to_owned(), 1));
    assert_eq!(trie.search("äö"), vec!["äöü"]);
}

#[test]
fn top_ten_of_150_words() {
    let mut trie = WeightedTrie::new();
    let mut expected: Vec<String> = Vec::new();
    for i in 0..150u32 {
        let word = format!("word{:03}", i);
        if i < 10 {
            expected.push(word.clone());
        }
        assert!(trie.insert(word, 1000 - i));
    }
    let found = trie.search("word");
    assert_eq!(found.len(), 10);
    assert_eq!(found, expected);
}

#[test]
fn top_ten_of_150_words_in_rising_order() {
    let mut trie = WeightedTrie::new();
    for i in 0..150u32 {
        assert!(trie.insert(format!("word{:03}", i), i));
    }
    let found = trie.search("word");
    let expected: Vec<String> = (140..150u32).rev().map(|i| format!("word{:03}", i)).collect();
    assert_eq!(found, expected);
}

#[test]
fn full_list_keeps_out_a_word_that_is_no_heavier() {
    let mut trie = WeightedTrie::with_limits(100, 2);
    trie.insert("aa".to_owned(), 5);
    trie.insert("ab".to_owned(), 3);
    trie.insert("ac".to_owned(), 3);
    assert_eq!(trie.search("a"), vec!["aa", "ab"]);
    assert_eq!(trie.search("ac"), vec!["ac"]);
    trie.insert("ad".to_owned(), 4);
    assert_eq!(trie.search("a"), vec!["aa", "ad"]);
    trie.insert("ab".to_owned(), 9);
    assert_eq!(trie.search("a"), vec!["ab", "aa"]);
}

#[test]
fn limit_of_zero_keeps_no_suggestions() {
    let mut trie = WeightedTrie::with_limits(100, 0);
    assert!(trie.insert("pie".to_owned(), 5));
    assert_eq!(trie.search("p").len(), 0);
    assert_eq!(trie.search("pie").len(), 0);
    assert_eq!(trie.memory_stats().nodes_count, 4);
    assert_eq!(trie.memory_stats().suggestions_total, 0);
}

#[test]
fn limit_of_one_keeps_the_heaviest() {
    let mut trie = WeightedTrie::with_limits(100, 1);
    trie.insert("ab".to_owned(), 3);
    trie.insert("ac".to_owned(), 5);
    trie.insert("ab".to_owned(), 4);
    assert_eq!(trie.search("a"), vec!["ac"]);
    trie.insert("ab".to_owned(), 6);
    assert_eq!(trie.search("a"), vec!["ab"]);
}

#[test]
fn zero_and_largest_weights_are_valid() {
    let trie = filled(&[("low", 0), ("lot", u32::MAX), ("log", 1)]);
    assert_eq!(trie.search("lo"), vec!["lot", "log", "low"]);
}

#[test]
fn search_results_never_repeat_a_word() {
    let mut trie = WeightedTrie::new();
    for round in 0..5u32 {
        for (i, word) in ["pie", "pita", "pi", "pizza"].iter().enumerate() {
            trie.insert((*word).to_owned(), round * 3 + i as u32);
        }
    }
    let found = trie.search("pi");
    assert_eq!(found, vec!["pizza", "pi", "pita", "pie"]);
}

#[test]
fn node_with_many_children_is_still_searched() {
    let mut trie = WeightedTrie::new();
    let letters = ["a", "b", "c", "d", "e", "f", "g", "é", "ж", "字"];
    for (i, letter) in letters.iter().enumerate() {
        assert!(trie.insert(format!("x{}", letter), i as u32));
        assert!(trie.insert(format!("{}y", letter), i as u32));
    }
    for letter in letters.iter() {
        assert_eq!(trie.search(&format!("x{}", letter)), vec![format!("x{}", letter)]);
        assert_eq!(trie.search(letter), vec![format!("{}y", letter)]);
    }
    assert_eq!(trie.search("xh").len(), 0);
    let stats = trie.memory_stats();
    assert_eq!(stats.children_large_count, 2);
    assert_eq!(stats.children_small_count + stats.children_large_count, stats.nodes_count);
}

#[test]
fn build_collapses_a_repeated_word_to_its_highest_weight() {
    let vocabulary = vec![
        WeightedString { word: "pizza".to_owned(), weight: 3 },
        WeightedString { word: "pie".to_owned(), weight: 5 },
        WeightedString { word: "pizza".to_owned(), weight: 10 },
        WeightedString { word: "pizza".to_owned(), weight: 1 },
    ];
    let trie = WeightedTrie::build(vocabulary);
    assert_eq!(trie.search("pi"), vec!["pizza", "pie"]);
    assert_eq!(trie.search("pizza"), vec!["pizza"]);
    assert_eq!(trie.memory_stats().words_count, 2);
}

#[test]
fn build_matches_inserting_in_order() {
    let pairs = [("ab", 4u32), ("ac", 4), ("a", 9), ("ab", 6), ("b", 1), ("", 3)];
    let vocabulary: Vec<WeightedString> = pairs
        .iter()
        .map(|(word, weight)| WeightedString { word: (*word).to_owned(), weight: *weight })
        .collect();
    let built = WeightedTrie::build(vocabulary);
    let filled = filled(&pairs);
    for prefix in ["", "a", "ab", "ac", "b", "c", "abc"] {
        assert_eq!(built.search(prefix), filled.search(prefix));
    }
    assert_eq!(built.search("a"), vec!["a", "ab", "ac"]);
}

#[test]
fn build_of_nothing_is_empty() {
    let trie = WeightedTrie::build(Vec::new());
    assert_eq!(trie.search("a").len(), 0);
    assert_eq!(trie.memory_stats().nodes_count, 1);
    assert_eq!(trie.memory_stats().words_count, 0);
}

#[test]
fn build_rejects_words_over_the_default_length() {
    let vocabulary = vec![
        WeightedString { word: "b".repeat(101), weight: 3 },
        WeightedString { word: "bee".to_owned(), weight: 1 },
    ];
    let trie = WeightedTrie::build(vocabulary);
    assert_eq!(trie.search("b"), vec!["bee"]);
}
