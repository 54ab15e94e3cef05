//! What a weighted trie is, apart from how it is stored: for every prefix the
//! ranked list of words that a search for it returns, and how an insert
//! changes those lists. The laws of the trie are proved here, over this model.
use crate::children::INLINE_CAPACITY;
use crate::ranking::{
    all_at_least, heaviest, holds, lemma_entries_come_from, lemma_place_is, lemma_updated_again,
    lemma_updated_drops_lightest, lemma_updated_heaviest, lemma_updated_holds_or_full,
    lemma_updated_idle, lemma_updated_raises, lemma_updated_ranked, place_of, raised, ranked,
    slot, updated, without, Ranked,
};
use crate::words::{interned, stored_once};
use vstd::prelude::*;

verus! {

/// The longest word, in characters, that a trie accepts unless told otherwise.
pub const DEFAULT_MAX_WORD_LENGTH: usize = 100;

/// The number of suggestions that a trie keeps per prefix unless told
/// otherwise.
pub const DEFAULT_MAX_SUGGESTIONS: usize = 10;

/// The words of a ranked list, in its order.
pub open spec fn words_of(list: Seq<Ranked<Seq<char>>>) -> Seq<Seq<char>> {
    Seq::new(list.len(), |i: int| list[i].word)
}

/// `prefix` is one of the prefixes of `word` that an insert visits: any but
/// the empty one, up to the whole word.
pub open spec fn visits(word: Seq<char>, prefix: Seq<char>) -> bool {
    prefix.len() > 0 && prefix.is_prefix_of(word)
}

/// The prefixes that have a node after `prefix` was reached: it gets a node
/// behind the others unless it has one already.
pub open spec fn reached(prefixes: Seq<Seq<char>>, prefix: Seq<char>) -> Seq<Seq<char>> {
    if prefixes.contains(prefix) {
        prefixes
    } else {
        prefixes.push(prefix)
    }
}

/// The prefixes that have a node after an insert has visited the first
/// `depth` prefixes of `word`, shortest first.
pub open spec fn visited(prefixes: Seq<Seq<char>>, word: Seq<char>, depth: nat) -> Seq<Seq<char>>
    decreases depth,
{
    if depth == 0 {
        prefixes
    } else {
        reached(visited(prefixes, word, (depth - 1) as nat), word.take(depth as int))
    }
}

/// The abstract state of a weighted trie.
pub struct TrieView {
    /// Words with more characters than this are rejected.
    pub max_word_length: nat,
    /// No prefix keeps more suggestions than this.
    pub max_suggestions: nat,
    /// The prefixes that have a node, in the order in which the nodes were
    /// made; the first is the empty prefix, whose node is the root.
    pub prefixes: Seq<Seq<char>>,
    /// The distinct words that were accepted, in the order in which they
    /// were first inserted.
    pub words: Seq<Seq<char>>,
    /// For every accepted word the highest weight that it was inserted with.
    pub best: Map<Seq<char>, u32>,
    /// The ranked suggestions of every prefix, heaviest first.
    pub ranked: Map<Seq<char>, Seq<Ranked<Seq<char>>>>,
}

impl TrieView {
    /// The trie into which nothing was inserted.
    pub open spec fn empty(max_word_length: nat, max_suggestions: nat) -> TrieView {
        TrieView {
            max_word_length,
            max_suggestions,
            prefixes: Seq::<Seq<char>>::empty().push(Seq::<char>::empty()),
            words: Seq::<Seq<char>>::empty(),
            best: Map::<Seq<char>, u32>::empty(),
            ranked: Map::new(
                |prefix: Seq<char>| true,
                |prefix: Seq<char>| Seq::<Ranked<Seq<char>>>::empty(),
            ),
        }
    }

    /// Whether an insert of `word` is accepted.
    pub open spec fn accepts(self, word: Seq<char>) -> bool {
        word.len() <= self.max_word_length
    }

    /// The trie after an insert of `word` with `weight`: unchanged if the word
    /// is rejected; else the word is stored if it is new, every visited
    /// prefix gets a node if it has none, the list of every visited prefix is
    /// updated with the word, and no other list changes.
    pub open spec fn insert(self, word: Seq<char>, weight: u32) -> TrieView {
        if self.accepts(word) {
            TrieView {
                prefixes: visited(self.prefixes, word, word.len()),
                words: interned(self.words, word),
                best: raised(self.best, word, weight),
                ranked: Map::new(
                    |prefix: Seq<char>| true,
                    |prefix: Seq<char>|
                        if visits(word, prefix) {
                            updated(self.ranked[prefix], word, weight, self.max_suggestions)
                        } else {
                            self.ranked[prefix]
                        },
                ),
                ..self
            }
        } else {
            self
        }
    }

    /// What a search for `prefix` returns.
    pub open spec fn search(self, prefix: Seq<char>) -> Seq<Seq<char>> {
        words_of(self.ranked[prefix])
    }

    /// The trie with default limits into which the pairs of word and weight
    /// were inserted one after the other.
    pub open spec fn build(pairs: Seq<(Seq<char>, u32)>) -> TrieView
        decreases pairs.len(),
    {
        if pairs.len() == 0 {
            TrieView::empty(DEFAULT_MAX_WORD_LENGTH as nat, DEFAULT_MAX_SUGGESTIONS as nat)
        } else {
            TrieView::build(pairs.drop_last()).insert(pairs.last().0, pairs.last().1)
        }
    }

    /// The number of suggestions that the nodes of the first `count` prefixes
    /// hold together.
    pub open spec fn suggestions_among(self, count: nat) -> nat
        decreases count,
    {
        if count == 0 {
            0
        } else {
            self.suggestions_among((count - 1) as nat) + self.ranked[self.prefixes[count
                - 1]].len()
        }
    }

    /// The number of suggestions that all nodes hold together.
    pub open spec fn suggestions_total(self) -> nat {
        self.suggestions_among(self.prefixes.len())
    }

    /// The accepted words that an insert ranks at `prefix`: those that start
    /// with it, if it is not empty.
    pub open spec fn candidates(self, prefix: Seq<char>) -> Set<Seq<char>> {
        Set::new(|word: Seq<char>| self.best.contains_key(word) && visits(word, prefix))
    }

    /// The characters by which `prefix` goes on to a prefix that has a node:
    /// the labels of the children of its node.
    pub open spec fn branches(self, prefix: Seq<char>) -> Set<char> {
        Set::new(|label: char| self.prefixes.contains(prefix.push(label)))
    }

    /// The number of nodes, among those of the first `count` prefixes, whose
    /// children are few enough to be kept in a list.
    pub open spec fn small_among(self, count: nat) -> nat
        decreases count,
    {
        if count == 0 {
            0
        } else {
            self.small_among((count - 1) as nat) + (if self.branches(
                self.prefixes[count - 1],
            ).len() <= INLINE_CAPACITY {
                1nat
            } else {
                0nat
            })
        }
    }

    /// What holds of every trie that inserts can produce. The root is the
    /// first node, and no prefix has two nodes; the prefixes that have a node
    /// are the empty one and those that the stored words visit. No word is
    /// stored twice or is too long, and a best weight is known of the stored
    /// words and of no other. Every prefix has a ranked list within the
    /// limit, whose words are stored words that start with the prefix; the
    /// list holds the heaviest of the candidates of the prefix, each with its
    /// best weight. A prefix without a node has no suggestions, nor has the
    /// empty prefix.
    pub open spec fn valid(self) -> bool {
        &&& self.prefixes.len() >= 1
        &&& self.prefixes[0] == Seq::<char>::empty()
        &&& self.prefixes.no_duplicates()
        &&& stored_once(self.words)
        &&& forall|id: int| 0 <= id < self.words.len() ==> (#[trigger] self.words[id]).len()
            <= self.max_word_length
        &&& forall|id: int, depth: int|
            0 <= id < self.words.len() && 1 <= depth <= self.words[id].len()
                ==> self.prefixes.contains(#[trigger] self.words[id].take(depth))
        &&& forall|at: int|
            1 <= at < self.prefixes.len() ==> exists|id: int|
                0 <= id < self.words.len() && visits(
                    #[trigger] self.words[id],
                    #[trigger] self.prefixes[at],
                )
        &&& forall|prefix: Seq<char>| self.ranked.contains_key(prefix)
        &&& forall|prefix: Seq<char>| ranked(#[trigger] self.ranked[prefix], self.max_suggestions)
        &&& forall|prefix: Seq<char>, i: int|
            0 <= i < self.ranked[prefix].len() ==> prefix.is_prefix_of(
                (#[trigger] self.ranked[prefix][i]).word,
            ) && self.words.contains(self.ranked[prefix][i].word)
        &&& forall|prefix: Seq<char>| (#[trigger] self.ranked[prefix]).len() > 0
            ==> self.prefixes.contains(prefix)
        &&& self.ranked[Seq::<char>::empty()].len() == 0
        &&& forall|word: Seq<char>| self.best.contains_key(word) <==> self.words.contains(word)
        &&& forall|prefix: Seq<char>|
            heaviest(
                #[trigger] self.ranked[prefix],
                self.max_suggestions,
                self.candidates(prefix),
                self.best,
            )
    }
}

/// A word is among the words of a list exactly if the list holds it.
pub proof fn lemma_words_of_holds(list: Seq<Ranked<Seq<char>>>, word: Seq<char>)
    ensures
        words_of(list).contains(word) <==> holds(list, word),
{
    if words_of(list).contains(word) {
        let i: int = choose|i: int| 0 <= i < words_of(list).len() && words_of(list)[i] == word;
        assert(list[i].word == word);
    }
    if holds(list, word) {
        let i: int = place_of(list, word);
        assert(words_of(list)[i] == word);
    }
}

/// The empty trie is valid.
pub proof fn lemma_empty_valid(max_word_length: nat, max_suggestions: nat)
    ensures
        TrieView::empty(max_word_length, max_suggestions).valid(),
{
}

/// Visiting prefixes adds nodes behind those that are there, one for each
/// visited prefix that had none, and nothing else.
pub proof fn lemma_visited(prefixes: Seq<Seq<char>>, word: Seq<char>, depth: nat)
    requires
        depth <= word.len(),
    ensures
        prefixes.is_prefix_of(visited(prefixes, word, depth)),
        prefixes.no_duplicates() ==> visited(prefixes, word, depth).no_duplicates(),
        forall|k: int|
            1 <= k <= depth ==> visited(prefixes, word, depth).contains(#[trigger] word.take(k)),
        forall|prefix: Seq<char>| #[trigger]
            visited(prefixes, word, depth).contains(prefix) ==> prefixes.contains(prefix) || (
            visits(word, prefix) && prefix.len() <= depth),
    decreases depth,
{
    let now = visited(prefixes, word, depth);
    if depth > 0 {
        let before = visited(prefixes, word, (depth - 1) as nat);
        let next = word.take(depth as int);
        lemma_visited(prefixes, word, (depth - 1) as nat);
        assert forall|k: int| 1 <= k <= depth implies now.contains(#[trigger] word.take(k)) by {
            if k < depth {
                let at: int = choose|at: int|
                    0 <= at < before.len() && before[at] == word.take(k);
                assert(now[at] == word.take(k));
            } else if before.contains(next) {
            } else {
                assert(now[before.len() as int] == next);
            }
        }
        assert forall|prefix: Seq<char>| #[trigger] now.contains(prefix) implies prefixes.contains(
            prefix,
        ) || (visits(word, prefix) && prefix.len() <= depth) by {
            let at: int = choose|at: int| 0 <= at < now.len() && now[at] == prefix;
            if at < before.len() {
                assert(before[at] == prefix);
                assert(before.contains(prefix));
            } else {
                assert(prefix == next);
            }
        }
    } else {
        assert(now =~= prefixes);
    }
}

/// Visiting prefixes that all have nodes adds none.
pub proof fn lemma_visited_known(prefixes: Seq<Seq<char>>, word: Seq<char>, depth: nat)
    requires
        depth <= word.len(),
        forall|k: int| 1 <= k <= depth ==> prefixes.contains(#[trigger] word.take(k)),
    ensures
        visited(prefixes, word, depth) == prefixes,
    decreases depth,
{
    if depth > 0 {
        lemma_visited_known(prefixes, word, (depth - 1) as nat);
        assert(prefixes.contains(word.take(depth as int)));
    }
}

/// An insert keeps a valid trie valid, and keeps its limits.
pub proof fn lemma_insert_valid(trie: TrieView, word: Seq<char>, weight: u32)
    requires
        trie.valid(),
    ensures
        trie.insert(word, weight).valid(),
        trie.insert(word, weight).max_word_length == trie.max_word_length,
        trie.insert(word, weight).max_suggestions == trie.max_suggestions,
{
    let after = trie.insert(word, weight);
    if trie.accepts(word) {
        lemma_visited(trie.prefixes, word, word.len());
        assert(after.prefixes[0] == trie.prefixes[0]);
        assert(stored_once(after.words)) by {
            if !trie.words.contains(word) {
                assert forall|a: int, b: int| 0 <= a < b < after.words.len() implies after.words[a]
                    != after.words[b] by {
                    if b == trie.words.len() {
                        assert(trie.words[a] == after.words[a]);
                    }
                }
            }
        }
        assert(after.words.contains(word)) by {
            if !trie.words.contains(word) {
                assert(after.words[trie.words.len() as int] == word);
            }
        }
        assert forall|known: Seq<char>| trie.words.contains(known) implies after.words.contains(
            known,
        ) by {
            let id: int = choose|id: int| 0 <= id < trie.words.len() && trie.words[id] == known;
            assert(after.words[id] == known);
        }
        let stored: int = choose|id: int| 0 <= id < after.words.len() && after.words[id] == word;
        assert forall|id: int, depth: int|
            0 <= id < after.words.len() && 1 <= depth
                <= after.words[id].len() implies after.prefixes.contains(
            #[trigger] after.words[id].take(depth),
        ) by {
            if id < trie.words.len() {
                assert(after.words[id] == trie.words[id]);
                let at: int = choose|at: int|
                    0 <= at < trie.prefixes.len() && trie.prefixes[at] == trie.words[id].take(
                        depth,
                    );
                assert(after.prefixes[at] == trie.prefixes[at]);
            }
        }
        assert forall|at: int| 1 <= at < after.prefixes.len() implies exists|id: int|
            0 <= id < after.words.len() && visits(
                #[trigger] after.words[id],
                #[trigger] after.prefixes[at],
            ) by {
            assert(after.prefixes.contains(after.prefixes[at]));
            if at < trie.prefixes.len() {
                assert(after.prefixes[at] == trie.prefixes[at]);
                let id: int = choose|id: int|
                    0 <= id < trie.words.len() && visits(
                        #[trigger] trie.words[id],
                        trie.prefixes[at],
                    );
                assert(visits(after.words[id], after.prefixes[at]));
            } else {
                if trie.prefixes.contains(after.prefixes[at]) {
                    let twin: int = choose|twin: int|
                        0 <= twin < trie.prefixes.len() && trie.prefixes[twin]
                            == after.prefixes[at];
                    assert(after.prefixes[twin] == after.prefixes[at]);
                }
                assert(visits(after.words[stored], after.prefixes[at]));
            }
        }
        assert forall|prefix: Seq<char>| ranked(
            #[trigger] after.ranked[prefix],
            after.max_suggestions,
        ) by {
            assert(ranked(trie.ranked[prefix], trie.max_suggestions));
            lemma_updated_ranked(trie.ranked[prefix], word, weight, trie.max_suggestions);
        }
        assert forall|prefix: Seq<char>, i: int|
            0 <= i < after.ranked[prefix].len() implies prefix.is_prefix_of(
            (#[trigger] after.ranked[prefix][i]).word,
        ) && after.words.contains(after.ranked[prefix][i].word) by {
            let was = trie.ranked[prefix];
            let now = after.ranked[prefix];
            assert(ranked(was, trie.max_suggestions));
            if visits(word, prefix) && now[i].word != word {
                lemma_entries_come_from(was, word, weight, trie.max_suggestions, i);
                let from: int = choose|from: int| 0 <= from < was.len() && was[from] == now[i];
                assert(prefix.is_prefix_of(was[from].word));
            } else if !visits(word, prefix) {
                assert(prefix.is_prefix_of(was[i].word));
            }
        }
        assert forall|prefix: Seq<char>| (#[trigger] after.ranked[prefix]).len()
            > 0 implies after.prefixes.contains(prefix) by {
            if visits(word, prefix) {
                assert(word.take(prefix.len() as int) =~= prefix);
            } else {
                assert(trie.ranked[prefix].len() > 0);
                let at: int = choose|at: int|
                    0 <= at < trie.prefixes.len() && trie.prefixes[at] == prefix;
                assert(after.prefixes[at] == prefix);
            }
        }
        assert forall|known: Seq<char>| after.best.contains_key(known) <==> after.words.contains(
            known,
        ) by {
            if known != word {
                if after.words.contains(known) {
                    let id: int = choose|id: int|
                        0 <= id < after.words.len() && after.words[id] == known;
                    assert(trie.words[id] == known);
                    assert(trie.words.contains(known));
                }
                if after.best.contains_key(known) {
                    assert(trie.best.contains_key(known));
                    assert(trie.words.contains(known));
                }
            }
        }
        assert forall|prefix: Seq<char>|
            heaviest(
                #[trigger] after.ranked[prefix],
                after.max_suggestions,
                after.candidates(prefix),
                after.best,
            ) by {
            let was = trie.ranked[prefix];
            assert(ranked(was, trie.max_suggestions));
            assert(heaviest(was, trie.max_suggestions, trie.candidates(prefix), trie.best));
            if visits(word, prefix) {
                lemma_updated_heaviest(
                    was,
                    word,
                    weight,
                    trie.max_suggestions,
                    trie.candidates(prefix),
                    trie.best,
                );
                assert(after.candidates(prefix) =~= trie.candidates(prefix).insert(word));
            } else {
                assert(after.candidates(prefix) =~= trie.candidates(prefix));
                assert forall|i: int| 0 <= i < was.len() implies (#[trigger] was[i]).word
                    != word by {
                    assert(trie.candidates(prefix).contains(was[i].word));
                }
            }
        }
    }
}

/// Every trie that `build` describes is valid and has the default limits.
pub proof fn law_built_trie_is_valid(pairs: Seq<(Seq<char>, u32)>)
    ensures
        TrieView::build(pairs).valid(),
        TrieView::build(pairs).max_word_length == DEFAULT_MAX_WORD_LENGTH,
        TrieView::build(pairs).max_suggestions == DEFAULT_MAX_SUGGESTIONS,
    decreases pairs.len(),
{
    if pairs.len() > 0 {
        law_built_trie_is_valid(pairs.drop_last());
        lemma_insert_valid(TrieView::build(pairs.drop_last()), pairs.last().0, pairs.last().1);
    }
}

/// After an accepted insert, a search for any visited prefix of the word
/// returns the word, unless the list of that prefix is full of entries that
/// weigh at least as much.
pub proof fn law_inserted_word_is_found(
    trie: TrieView,
    word: Seq<char>,
    weight: u32,
    prefix: Seq<char>,
)
    requires
        trie.valid(),
        trie.accepts(word),
        visits(word, prefix),
    ensures
        ({
            let after = trie.insert(word, weight);
            ||| after.search(prefix).contains(word)
            ||| (after.ranked[prefix].len() == trie.max_suggestions && all_at_least(
                after.ranked[prefix],
                weight,
            ) && after.ranked[prefix] == trie.ranked[prefix])
        }),
{
    let after = trie.insert(word, weight);
    assert(ranked(trie.ranked[prefix], trie.max_suggestions));
    lemma_updated_holds_or_full(trie.ranked[prefix], word, weight, trie.max_suggestions);
    lemma_words_of_holds(after.ranked[prefix], word);
}

/// A search returns the heaviest words that start with the prefix: every
/// accepted word that starts with a prefix that is not empty is among its
/// suggestions, ranked with the highest weight that it was inserted with,
/// unless the suggestions are full of entries that weigh at least as much.
pub proof fn law_search_holds_the_heaviest(trie: TrieView, prefix: Seq<char>, word: Seq<char>)
    requires
        trie.valid(),
        trie.words.contains(word),
        visits(word, prefix),
    ensures
        ({
            let list = trie.ranked[prefix];
            if trie.search(prefix).contains(word) {
                list[place_of(list, word)].weight == trie.best[word]
            } else {
                list.len() == trie.max_suggestions && all_at_least(list, trie.best[word])
            }
        }),
{
    let list = trie.ranked[prefix];
    lemma_words_of_holds(list, word);
    assert(heaviest(list, trie.max_suggestions, trie.candidates(prefix), trie.best));
    assert(trie.candidates(prefix).contains(word));
    if holds(list, word) {
        assert(trie.best[list[place_of(list, word)].word] == list[place_of(list, word)].weight);
    }
}

/// The suggestions of every prefix are ordered by weight, heaviest first.
pub proof fn law_suggestions_descend(trie: TrieView, prefix: Seq<char>, i: int, j: int)
    requires
        trie.valid(),
        0 <= i <= j < trie.ranked[prefix].len(),
    ensures
        trie.ranked[prefix][i].weight >= trie.ranked[prefix][j].weight,
{
    assert(ranked(trie.ranked[prefix], trie.max_suggestions));
}

/// A search returns no more words than the limit, and no word twice.
pub proof fn law_search_bounded_and_distinct(trie: TrieView, prefix: Seq<char>)
    requires
        trie.valid(),
    ensures
        trie.search(prefix).len() <= trie.max_suggestions,
        trie.search(prefix).no_duplicates(),
{
    let list = trie.ranked[prefix];
    assert(ranked(list, trie.max_suggestions));
    assert forall|i: int, j: int|
        0 <= i < trie.search(prefix).len() && 0 <= j < trie.search(prefix).len() && i
            != j implies trie.search(prefix)[i] != trie.search(prefix)[j] by {
        if i < j {
            assert(list[i].word != list[j].word);
        } else {
            assert(list[j].word != list[i].word);
        }
    }
}

/// Inserting a word again with a weight that is no higher changes nothing:
/// no list, no rank.
pub proof fn law_lighter_reinsert_is_idle(
    trie: TrieView,
    word: Seq<char>,
    weight: u32,
    lighter: u32,
)
    requires
        trie.valid(),
        lighter <= weight,
    ensures
        trie.insert(word, weight).insert(word, lighter) == trie.insert(word, weight),
{
    let once = trie.insert(word, weight);
    let twice = once.insert(word, lighter);
    if trie.accepts(word) {
        lemma_visited(trie.prefixes, word, word.len());
        lemma_visited_known(once.prefixes, word, word.len());
        assert(interned(once.words, word) == once.words) by {
            if !trie.words.contains(word) {
                assert(once.words[trie.words.len() as int] == word);
            }
        }
        assert(raised(once.best, word, lighter) =~= once.best);
        assert forall|prefix: Seq<char>| #[trigger] twice.ranked[prefix] == once.ranked[prefix] by {
            if visits(word, prefix) {
                assert(ranked(trie.ranked[prefix], trie.max_suggestions));
                lemma_updated_again(
                    trie.ranked[prefix],
                    word,
                    weight,
                    lighter,
                    trie.max_suggestions,
                );
            }
        }
        assert(twice.ranked =~= once.ranked);
    }
}

/// An accepted insert leaves the suggestions of a visited prefix as they are
/// in two cases and in no other: the word is among them with a weight that is
/// no lower, or it is not among them and they are full of entries that weigh
/// no less. So an insert with a weight that is no higher never changes the
/// rank of the word and never pushes another word out.
pub proof fn law_insert_is_idle_exactly_when(
    trie: TrieView,
    word: Seq<char>,
    weight: u32,
    prefix: Seq<char>,
)
    requires
        trie.valid(),
        trie.accepts(word),
        visits(word, prefix),
    ensures
        trie.insert(word, weight).ranked[prefix] == trie.ranked[prefix] <==> if holds(
            trie.ranked[prefix],
            word,
        ) {
            weight <= trie.ranked[prefix][place_of(trie.ranked[prefix], word)].weight
        } else {
            trie.ranked[prefix].len() == trie.max_suggestions && all_at_least(
                trie.ranked[prefix],
                weight,
            )
        },
{
    assert(ranked(trie.ranked[prefix], trie.max_suggestions));
    lemma_updated_idle(trie.ranked[prefix], word, weight, trie.max_suggestions);
}

/// Inserting a word whose entry at a prefix is lighter than the new weight
/// moves that one entry forward to the slot of the new weight: the list keeps
/// its length, the word has one entry, with the new weight, and the other
/// entries keep their order.
pub proof fn law_heavier_reinsert_moves_entry(
    trie: TrieView,
    word: Seq<char>,
    weight: u32,
    prefix: Seq<char>,
)
    requires
        trie.valid(),
        trie.accepts(word),
        visits(word, prefix),
        holds(trie.ranked[prefix], word),
        trie.ranked[prefix][place_of(trie.ranked[prefix], word)].weight < weight,
    ensures
        ({
            let before = trie.ranked[prefix];
            let after = trie.insert(word, weight).ranked[prefix];
            &&& after.len() == before.len()
            &&& holds(after, word)
            &&& after[place_of(after, word)] == Ranked { weight, word }
            &&& place_of(after, word) == slot(without(before, word), weight)
            &&& place_of(after, word) <= place_of(before, word)
            &&& without(after, word) == without(before, word)
            &&& forall|i: int| 0 <= i < after.len() && i != place_of(after, word) ==> (
            #[trigger] after[i]).word != word
        }),
{
    let before = trie.ranked[prefix];
    let after = trie.insert(word, weight).ranked[prefix];
    assert(ranked(before, trie.max_suggestions));
    lemma_updated_raises(before, word, weight, trie.max_suggestions);
    lemma_updated_ranked(before, word, weight, trie.max_suggestions);
    let at: int = place_of(after, word);
    assert forall|i: int| 0 <= i < after.len() && i != at implies (#[trigger] after[i]).word
        != word by {
        if after[i].word == word {
            lemma_place_is(after, word, i);
        }
    }
}

/// A word that an insert pushes out of the suggestions of a prefix is not
/// the inserted word, leaves a full list behind, and weighs no more than any
/// word that stays in it: no heavier word is ever dropped for a lighter one.
pub proof fn law_dropped_word_is_lightest(
    trie: TrieView,
    word: Seq<char>,
    weight: u32,
    prefix: Seq<char>,
    dropped: Seq<char>,
)
    requires
        trie.valid(),
        holds(trie.ranked[prefix], dropped),
        !holds(trie.insert(word, weight).ranked[prefix], dropped),
    ensures
        dropped != word,
        trie.insert(word, weight).ranked[prefix].len() == trie.max_suggestions,
        all_at_least(
            trie.insert(word, weight).ranked[prefix],
            trie.ranked[prefix][place_of(trie.ranked[prefix], dropped)].weight,
        ),
{
    assert(ranked(trie.ranked[prefix], trie.max_suggestions));
    lemma_updated_drops_lightest(
        trie.ranked[prefix],
        word,
        weight,
        trie.max_suggestions,
        dropped,
    );
}

/// An insert of a word that is too long is rejected and changes no search.
pub proof fn law_rejected_insert_is_idle(
    trie: TrieView,
    word: Seq<char>,
    weight: u32,
    prefix: Seq<char>,
)
    requires
        !trie.accepts(word),
    ensures
        trie.insert(word, weight) == trie,
        trie.insert(word, weight).search(prefix) == trie.search(prefix),
{
}

/// An insert changes the suggestions of the visited prefixes of the word and
/// of no other prefix.
pub proof fn law_insert_is_local(trie: TrieView, word: Seq<char>, weight: u32, prefix: Seq<char>)
    requires
        !visits(word, prefix),
    ensures
        trie.insert(word, weight).search(prefix) == trie.search(prefix),
{
}

} // verus!
