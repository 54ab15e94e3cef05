use std::collections::HashMap;
use weighted_trie::trie::WeightedString;
use weighted_trie::WeightedTrie;

/// A small generator of numbers that looks random and is the same every run.
struct Dice {
    state: u64,
}

impl Dice {
    fn roll(&mut self, sides: u64) -> u64 {
        self.state = self.state.wrapping_mul(6364136223846793005).wrapping_add(1442695040888963407);
        (self.state >> 33) % sides
    }
}

fn vocabulary() -> Vec<String> {
    let mut words: Vec<String> = Vec::new();
    for a in ["a", "b"] {
        words.push(a.to_owned());
        for b in ["a", "b"] {
            words.push(format!("{}{}", a, b));
            for c in ["a", "b"] {
                words.push(format!("{}{}{}", a, b, c));
            }
        }
    }
    words
}

fn prefixes() -> Vec<String> {
    let mut all: Vec<String> = vocabulary();
    all.push(String::new());
    all.push("aaaa".to_owned());
    all.push("c".to_owned());
    all
}

/// The ranked list of one prefix, kept the slow and plain way.
fn update_plain(list: &mut Vec<(u32, String)>, word: &str, weight: u32, limit: usize) {
    if let Some(at) = list.iter().position(|(_, listed)| listed == word) {
        if weight <= list[at].0 {
            return;
        }
        list.remove(at);
    }
    let at = list.iter().take_while(|(listed, _)| *listed >= weight).count();
    list.insert(at, (weight, word.to_owned()));
    list.truncate(limit);
}

#[test]
fn trie_agrees_with_lists_kept_the_plain_way() {
    for limit in [0usize, 1, 2, 3, 20] {
        let words = vocabulary();
        let mut dice = Dice { state: 7 + limit as u64 };
        let mut trie = WeightedTrie::with_limits(3, limit);
        let mut plain: HashMap<String, Vec<(u32, String)>> = HashMap::new();
        for _ in 0..300 {
            let word = words[dice.roll(words.len() as u64) as usize].clone();
            let weight = dice.roll(12) as u32;
            assert!(trie.insert(word.clone(), weight));
            for end in 1..=word.len() {
                let list = plain.entry(word[..end].to_owned()).or_default();
                update_plain(list, &word, weight, limit);
            }
            for prefix in prefixes() {
                let expected: Vec<String> = plain
                    .get(&prefix)
                    .map(|list| list.iter().map(|(_, listed)| listed.clone()).collect())
                    .unwrap_or_default();
                assert_eq!(trie.search(&prefix), expected);
            }
        }
    }
}

#[test]
fn search_returns_the_heaviest_words_whatever_the_order_of_inserts() {
    let words = vocabulary();
    for limit in [1usize, 2, 3, 5] {
        let mut dice = Dice { state: 99 + limit as u64 };
        let mut trie = WeightedTrie::with_limits(10, limit);
        let mut best: HashMap<String, u32> = HashMap::new();
        for _ in 0..400 {
            let index = dice.roll(words.len() as u64) as usize;
            // no two words ever share a weight
            let weight = dice.roll(50) as u32 * 16 + index as u32;
            trie.insert(words[index].clone(), weight);
            let known = best.entry(words[index].clone()).or_insert(weight);
            if weight > *known {
                *known = weight;
            }
        }
        for prefix in prefixes() {
            let mut matching: Vec<(u32, String)> = best
                .iter()
                .filter(|(word, _)| !prefix.is_empty() && word.starts_with(&prefix))
                .map(|(word, weight)| (*weight, word.clone()))
                .collect();
            matching.sort_by(|a, b| b.0.cmp(&a.0));
            matching.truncate(limit);
            let expected: Vec<String> = matching.into_iter().map(|(_, word)| word).collect();
            assert_eq!(trie.search(&prefix), expected);
        }
    }
}

#[test]
fn build_agrees_with_inserts_on_a_long_vocabulary() {
    let words = vocabulary();
    let mut dice = Dice { state: 2024 };
    let mut pairs: Vec<(String, u32)> = Vec::new();
    for _ in 0..500 {
        let word = words[dice.roll(words.len() as u64) as usize].clone();
        pairs.push((word, dice.roll(1000) as u32));
    }
    let vocabulary: Vec<WeightedString> = pairs
        .iter()
        .map(|(word, weight)| WeightedString { word: word.clone(), weight: *weight })
        .collect();
    let built = WeightedTrie::build(vocabulary);
    let mut filled = WeightedTrie::new();
    for (word, weight) in pairs.iter() {
        filled.insert(word.clone(), *weight);
    }
    for prefix in prefixes() {
        assert_eq!(built.search(&prefix), filled.search(&prefix));
    }
    let built_stats = built.memory_stats();
    let filled_stats = filled.memory_stats();
    assert_eq!(built_stats.nodes_count, filled_stats.nodes_count);
    assert_eq!(built_stats.words_count, filled_stats.words_count);
    assert_eq!(built_stats.suggestions_total, filled_stats.suggestions_total);
    assert_eq!(built_stats.words_storage_bytes, filled_stats.words_storage_bytes);
}
