//! The weighted trie: an arena of nodes addressed by position, a word store,
//! and the two limits fixed at construction.
use crate::children::ChildTable;
use crate::model::{
    law_search_bounded_and_distinct, lemma_empty_valid, lemma_insert_valid, reached, visited,
    visits, TrieView, DEFAULT_MAX_SUGGESTIONS, DEFAULT_MAX_WORD_LENGTH,
};
use crate::ranking::{
    descending, lemma_entries_come_from, lemma_updated_ranked, lemma_updated_renamed,
    names_apart, raised, ranked, renamed, updated, Ranked,
};
use crate::room::{bytes_for, clamped, clamped_sum, release, room_of, MAX_RESERVED};
use crate::stats::MemoryStats;
use crate::suggestions::PACKED_BYTES;
use crate::suggestions::Suggestions;
use crate::words::{bytes_among, interned, stored_once, WordStore};
use vstd::prelude::*;

verus! {

/// The nodes for which room is set aside per word of a vocabulary.
pub const NODES_PER_WORD: usize = 4;

/// One position in the trie. The prefix that leads to a node is not stored in
/// it: it is the path from the root.
pub struct TrieNode {
    /// The node that each next character leads to.
    pub children: ChildTable,
    /// The ranked words that pass through this node, by identity.
    pub suggestions: Suggestions,
}

impl TrieNode {
    /// Both parts of the node are well formed.
    pub open spec fn wf(&self) -> bool {
        self.children.wf() && self.suggestions.wf()
    }

    /// A node without children and without suggestions.
    pub fn new() -> (node: TrieNode)
        ensures
            node.wf(),
            node.children.inline(),
            node.children@ == Map::<char, usize>::empty(),
            node.suggestions@ == Seq::<Ranked<usize>>::empty(),
    {
        TrieNode { children: ChildTable::new(), suggestions: Suggestions::new() }
    }
}

/// A word and the weight to insert it with.
pub struct WeightedString {
    pub word: String,
    pub weight: u32,
}

/// The pairs of word and weight that a vocabulary holds, in its order.
pub open spec fn pairs_of(vocabulary: Seq<WeightedString>) -> Seq<(Seq<char>, u32)> {
    Seq::new(vocabulary.len(), |i: int| (vocabulary[i].word@, vocabulary[i].weight))
}

/// The character sequences of some strings, in their order.
pub open spec fn texts(strings: Seq<String>) -> Seq<Seq<char>> {
    Seq::new(strings.len(), |i: int| strings[i]@)
}

/// A prefix tree that keeps, for every prefix, the heaviest words that start
/// with it.
pub struct WeightedTrie {
    nodes: Vec<TrieNode>,
    words: WordStore,
    max_word_length: usize,
    max_suggestions: usize,
    /// For every node the prefix that leads to it.
    paths: Ghost<Seq<Seq<char>>>,
    /// For every stored word the highest weight that it was inserted with.
    best: Ghost<Map<Seq<char>, u32>>,
}

/// The word that each identity stands for.
spec fn naming(words: Seq<Seq<char>>) -> spec_fn(usize) -> Seq<char> {
    |id: usize| words[id as int]
}

/// Where one character leads from the node at `at`.
spec fn step(nodes: Seq<TrieNode>, at: int, label: char) -> Option<int> {
    if 0 <= at < nodes.len() && nodes[at].children@.contains_key(label) {
        Some(nodes[at].children@[label] as int)
    } else {
        None
    }
}

/// Where `prefix` leads from the root, one character after the other.
spec fn walk(nodes: Seq<TrieNode>, prefix: Seq<char>) -> Option<int>
    decreases prefix.len(),
{
    if prefix.len() == 0 {
        Some(0)
    } else {
        match walk(nodes, prefix.drop_last()) {
            Some(at) => step(nodes, at, prefix.last()),
            None => None,
        }
    }
}

/// The ranked words at the node that `prefix` leads to; none if it leads
/// nowhere.
spec fn ranked_at(nodes: Seq<TrieNode>, words: Seq<Seq<char>>, prefix: Seq<char>) -> Seq<
    Ranked<Seq<char>>,
> {
    match walk(nodes, prefix) {
        Some(at) => renamed(nodes[at].suggestions@, naming(words)),
        None => Seq::empty(),
    }
}

/// The nodes form a tree under the root: every edge leads to a node of the
/// arena whose path is the path of the edge's source and then its label, and
/// the path of every node leads to it.
spec fn linked(nodes: Seq<TrieNode>, paths: Seq<Seq<char>>) -> bool {
    &&& nodes.len() >= 1
    &&& paths.len() == nodes.len()
    &&& paths[0] == Seq::<char>::empty()
    &&& forall|at: int| 0 <= at < nodes.len() ==> walk(nodes, #[trigger] paths[at]) == Some(at)
    &&& forall|at: int, label: char|
        0 <= at < nodes.len() && #[trigger] nodes[at].children@.contains_key(label) ==> 0
            <= nodes[at].children@[label] < nodes.len() && paths[nodes[at].children@[label] as int]
            == paths[at].push(label)
}

/// An entry of the node with path `path` names a stored word that starts
/// with the path.
spec fn entry_fits(path: Seq<char>, words: Seq<Seq<char>>, entry: Ranked<usize>) -> bool {
    &&& entry.word < words.len()
    &&& path.is_prefix_of(words[entry.word as int])
}

/// Every node is well formed and holds a ranked list of fitting entries; the
/// root holds none.
spec fn listed(
    nodes: Seq<TrieNode>,
    paths: Seq<Seq<char>>,
    words: Seq<Seq<char>>,
    max_suggestions: usize,
) -> bool {
    &&& forall|at: int|
        0 <= at < nodes.len() ==> (#[trigger] nodes[at]).wf() && ranked(
            nodes[at].suggestions@,
            max_suggestions as nat,
        )
    &&& forall|at: int, i: int|
        0 <= at < nodes.len() && 0 <= i < nodes[at].suggestions@.len() ==> entry_fits(
            paths[at],
            words,
            #[trigger] nodes[at].suggestions@[i],
        )
    &&& nodes[0].suggestions@.len() == 0
}

/// In a linked arena a prefix leads to the node that has it as its path.
proof fn lemma_walk_path(nodes: Seq<TrieNode>, paths: Seq<Seq<char>>, prefix: Seq<char>)
    requires
        linked(nodes, paths),
    ensures
        walk(nodes, prefix) matches Some(at) ==> 0 <= at < nodes.len() && paths[at] == prefix,
    decreases prefix.len(),
{
    if prefix.len() > 0 {
        lemma_walk_path(nodes, paths, prefix.drop_last());
        if let Some(from) = walk(nodes, prefix.drop_last()) {
            if let Some(at) = step(nodes, from, prefix.last()) {
                assert(nodes[from].children@.contains_key(prefix.last()));
                assert(prefix.drop_last().push(prefix.last()) =~= prefix);
            }
        }
    }
}

/// A prefix that leads nowhere has no extension that leads anywhere.
proof fn lemma_walk_dead_end(nodes: Seq<TrieNode>, prefix: Seq<char>, longer: Seq<char>)
    requires
        walk(nodes, prefix) is None,
        prefix.is_prefix_of(longer),
    ensures
        walk(nodes, longer) is None,
    decreases longer.len(),
{
    if longer.len() > prefix.len() {
        assert(prefix.is_prefix_of(longer.drop_last())) by {
            assert(longer.drop_last().subrange(0, prefix.len() as int) =~= longer.subrange(
                0,
                prefix.len() as int,
            ));
        }
        lemma_walk_dead_end(nodes, prefix, longer.drop_last());
    } else {
        assert(longer =~= prefix);
    }
}

/// Nodes that keep their children keep every walk.
proof fn lemma_walk_same(before: Seq<TrieNode>, after: Seq<TrieNode>, prefix: Seq<char>)
    requires
        before.len() == after.len(),
        forall|at: int|
            0 <= at < before.len() ==> (#[trigger] after[at]).children@ == before[at].children@,
    ensures
        walk(after, prefix) == walk(before, prefix),
    decreases prefix.len(),
{
    if prefix.len() > 0 {
        lemma_walk_same(before, after, prefix.drop_last());
        if let Some(from) = walk(before, prefix.drop_last()) {
            if 0 <= from < before.len() {
                assert(after[from].children@ == before[from].children@);
            }
        }
    }
}

/// In a linked arena the prefixes that have a node are the paths.
proof fn lemma_path_known(nodes: Seq<TrieNode>, paths: Seq<Seq<char>>, prefix: Seq<char>)
    requires
        linked(nodes, paths),
    ensures
        paths.contains(prefix) <==> walk(nodes, prefix) is Some,
{
    lemma_walk_path(nodes, paths, prefix);
    if let Some(at) = walk(nodes, prefix) {
        assert(paths[at] == prefix);
    }
}

/// In a linked arena the children of a node are labelled by the characters
/// by which its path goes on to another path.
proof fn lemma_branches(nodes: Seq<TrieNode>, paths: Seq<Seq<char>>, at: int)
    requires
        linked(nodes, paths),
        0 <= at < nodes.len(),
    ensures
        nodes[at].children@.dom() == Set::new(
            |label: char| paths.contains(paths[at].push(label)),
        ),
{
    let path = paths[at];
    assert forall|label: char| #[trigger]
        nodes[at].children@.contains_key(label) <==> paths.contains(path.push(label)) by {
        assert(path.push(label).drop_last() =~= path);
        lemma_path_known(nodes, paths, path.push(label));
    }
    assert(nodes[at].children@.dom() =~= Set::new(
        |label: char| paths.contains(path.push(label)),
    ));
}

/// A fresh node hung under `parent` by an edge that was missing changes one
/// walk: the parent's path followed by the label now leads to the fresh node.
proof fn lemma_walk_grown(
    before: Seq<TrieNode>,
    after: Seq<TrieNode>,
    paths: Seq<Seq<char>>,
    parent: int,
    label: char,
    child: usize,
    prefix: Seq<char>,
)
    requires
        linked(before, paths),
        0 <= parent < before.len(),
        walk(before, paths[parent]) == Some(parent),
        !before[parent].children@.contains_key(label),
        child == before.len(),
        after.len() == before.len() + 1,
        after[child as int].children@ == Map::<char, usize>::empty(),
        after[parent].children@ == before[parent].children@.insert(label, child),
        forall|at: int|
            0 <= at < before.len() && at != parent ==> (#[trigger] after[at]).children@
                == before[at].children@,
    ensures
        walk(after, prefix) == (if prefix == paths[parent].push(label) {
            Some(child as int)
        } else {
            walk(before, prefix)
        }),
    decreases prefix.len(),
{
    let target = paths[parent].push(label);
    if prefix.len() > 0 {
        let shorter = prefix.drop_last();
        assert(shorter.push(prefix.last()) =~= prefix);
        assert(target.drop_last() =~= paths[parent]);
        lemma_walk_grown(before, after, paths, parent, label, child, shorter);
        lemma_walk_path(before, paths, shorter);
        if let Some(from) = walk(before, shorter) {
            if from != parent {
                assert(after[from].children@ == before[from].children@);
            }
        }
    }
}

/// In an arena that is only a root without children, no character leads
/// anywhere.
proof fn lemma_walk_bare(nodes: Seq<TrieNode>, prefix: Seq<char>)
    requires
        nodes.len() == 1,
        nodes[0].children@ == Map::<char, usize>::empty(),
        prefix.len() > 0,
    ensures
        walk(nodes, prefix) is None,
    decreases prefix.len(),
{
    if prefix.len() > 1 {
        lemma_walk_bare(nodes, prefix.drop_last());
    }
}

/// Stored words name the identities of a list apart.
proof fn lemma_naming_apart(list: Seq<Ranked<usize>>, words: Seq<Seq<char>>, id: usize)
    requires
        stored_once(words),
        id < words.len(),
        forall|i: int| 0 <= i < list.len() ==> (#[trigger] list[i]).word < words.len(),
    ensures
        names_apart(list, id, naming(words)),
{
    assert forall|a: usize, b: usize|
        a < words.len() && b < words.len() && #[trigger] naming(words)(a) == #[trigger] naming(
            words,
        )(b) implies a == b by {
        if a < b {
            assert(words[a as int] != words[b as int]);
        } else if b < a {
            assert(words[b as int] != words[a as int]);
        }
    }
}

/// Words that are added to the store leave the names of a list as they were.
proof fn lemma_named_same(list: Seq<Ranked<usize>>, before: Seq<Seq<char>>, after: Seq<Seq<char>>)
    requires
        before.len() <= after.len(),
        forall|id: int| 0 <= id < before.len() ==> after[id] == before[id],
        forall|i: int| 0 <= i < list.len() ==> (#[trigger] list[i]).word < before.len(),
    ensures
        renamed(list, naming(after)) == renamed(list, naming(before)),
{
    assert forall|i: int| 0 <= i < list.len() implies renamed(list, naming(after))[i] == renamed(
        list,
        naming(before),
    )[i] by {
        assert(list[i].word < before.len());
    }
    assert(renamed(list, naming(after)) =~= renamed(list, naming(before)));
}

impl View for WeightedTrie {
    type V = TrieView;

    closed spec fn view(&self) -> TrieView {
        TrieView {
            max_word_length: self.max_word_length as nat,
            max_suggestions: self.max_suggestions as nat,
            prefixes: self.paths@,
            words: self.words@,
            best: self.best@,
            ranked: Map::new(
                |prefix: Seq<char>| true,
                |prefix: Seq<char>| ranked_at(self.nodes@, self.words@, prefix),
            ),
        }
    }
}

impl WeightedTrie {
    /// The arena is a tree of well-formed nodes under the root at position 0,
    /// and every suggestion names a stored word that passes through its node.
    spec fn sound(&self) -> bool {
        &&& self.words.wf()
        &&& forall|id: int|
            0 <= id < self.words@.len() ==> (#[trigger] self.words@[id]).len()
                <= self.max_word_length
        &&& linked(self.nodes@, self.paths@)
        &&& listed(self.nodes@, self.paths@, self.words@, self.max_suggestions)
    }

    /// The trie is soundly stored, and what it stands for is valid.
    pub closed spec fn wf(&self) -> bool {
        self.sound() && self@.valid()
    }

    /// The view of a well-formed trie is a valid one.
    pub proof fn lemma_view_valid(&self)
        requires
            self.wf(),
        ensures
            self@.valid(),
    {
    }

    /// An empty trie that accepts words of up to 100 characters and keeps up
    /// to 10 suggestions per prefix.
    pub fn new() -> (trie: WeightedTrie)
        ensures
            trie.wf(),
            trie@ == TrieView::empty(
                DEFAULT_MAX_WORD_LENGTH as nat,
                DEFAULT_MAX_SUGGESTIONS as nat,
            ),
            trie@.valid(),
    {
        WeightedTrie::with_limits(DEFAULT_MAX_WORD_LENGTH, DEFAULT_MAX_SUGGESTIONS)
    }

    /// An empty trie with the given limits.
    pub fn with_limits(max_word_length: usize, max_suggestions: usize) -> (trie: WeightedTrie)
        ensures
            trie.wf(),
            trie@ == TrieView::empty(max_word_length as nat, max_suggestions as nat),
            trie@.valid(),
    {
        WeightedTrie::with_room(max_word_length, max_suggestions, 0, 0)
    }

    /// An empty trie with the given limits and with room for a number of
    /// nodes and words.
    fn with_room(
        max_word_length: usize,
        max_suggestions: usize,
        nodes: usize,
        words: usize,
    ) -> (trie: WeightedTrie)
        requires
            nodes <= MAX_RESERVED,
            words <= MAX_RESERVED,
        ensures
            trie.wf(),
            trie@ == TrieView::empty(max_word_length as nat, max_suggestions as nat),
            trie@.valid(),
    {
        let mut arena: Vec<TrieNode> = Vec::with_capacity(nodes + 1);
        arena.push(TrieNode::new());
        let trie = WeightedTrie {
            nodes: arena,
            words: WordStore::with_capacity(words),
            max_word_length,
            max_suggestions,
            paths: Ghost(Seq::<Seq<char>>::empty().push(Seq::<char>::empty())),
            best: Ghost(Map::<Seq<char>, u32>::empty()),
        };
        proof {
            assert forall|prefix: Seq<char>| #[trigger]
                ranked_at(trie.nodes@, trie.words@, prefix) == Seq::<
                    Ranked<Seq<char>>,
                >::empty() by {
                if prefix.len() > 0 {
                    lemma_walk_bare(trie.nodes@, prefix);
                } else {
                    assert(renamed(trie.nodes@[0].suggestions@, naming(trie.words@)) =~= Seq::<
                        Ranked<Seq<char>>,
                    >::empty());
                }
            }
            assert(trie@.ranked =~= TrieView::empty(
                max_word_length as nat,
                max_suggestions as nat,
            ).ranked);
            lemma_empty_valid(max_word_length as nat, max_suggestions as nat);
        }
        trie
    }

    /// The child that `label` leads to from `parent`, which is the node of
    /// `path`; a child that is missing is added to the arena first.
    fn child_or_new(
        &mut self,
        parent: usize,
        label: char,
        Ghost(path): Ghost<Seq<char>>,
    ) -> (child: usize)
        requires
            old(self).sound(),
            walk(old(self).nodes@, path) == Some(parent as int),
        ensures
            final(self).sound(),
            final(self)@ == (TrieView {
                prefixes: reached(old(self)@.prefixes, path.push(label)),
                ..old(self)@
            }),
            walk(final(self).nodes@, path.push(label)) == Some(child as int),
    {
        let ghost before = self.nodes@;
        let ghost was = self.paths@;
        let ghost target = path.push(label);
        proof {
            lemma_walk_path(before, was, path);
            lemma_path_known(before, was, target);
            assert(target.drop_last() =~= path);
            assert(before[parent as int].wf());
        }
        match self.nodes[parent].children.get(label) {
            Some(child) => child,
            None => {
                let child: usize = self.nodes.len();
                self.nodes.push(TrieNode::new());
                self.nodes[parent].children.set(label, child);
                proof {
                    self.paths@ = was.push(target);
                    let after = self.nodes@;
                    assert forall|prefix: Seq<char>| #[trigger]
                        ranked_at(after, self.words@, prefix) == ranked_at(
                            before,
                            self.words@,
                            prefix,
                        ) by {
                        lemma_walk_grown(before, after, was, parent as int, label, child, prefix);
                        lemma_walk_path(before, was, prefix);
                        if prefix == target {
                            assert(renamed(after[child as int].suggestions@, naming(self.words@))
                                =~= Seq::<Ranked<Seq<char>>>::empty());
                        }
                    }
                    assert(self@.ranked =~= old(self)@.ranked);
                    lemma_walk_grown(before, after, was, parent as int, label, child, target);
                    assert(linked(after, self.paths@)) by {
                        assert forall|at: int, other: char|
                            0 <= at < after.len() && #[trigger] after[at].children@.contains_key(
                                other,
                            ) implies 0 <= after[at].children@[other] < after.len()
                            && self.paths@[after[at].children@[other] as int]
                            == self.paths@[at].push(other) by {
                            if at < before.len() && !(at == parent && other == label) {
                                assert(before[at].children@.contains_key(other));
                            }
                        }
                        assert forall|at: int| 0 <= at < after.len() implies walk(
                            after,
                            #[trigger] self.paths@[at],
                        ) == Some(at) by {
                            lemma_walk_grown(
                                before,
                                after,
                                was,
                                parent as int,
                                label,
                                child,
                                self.paths@[at],
                            );
                            if at < before.len() {
                                assert(walk(before, was[at]) == Some(at));
                            }
                        }
                    }
                }
                child
            },
        }
    }

    /// Records at the node of `path` that the stored word `id` passes through
    /// it with `weight`.
    fn rank_at(&mut self, at: usize, id: usize, weight: u32, Ghost(path): Ghost<Seq<char>>)
        requires
            old(self).sound(),
            walk(old(self).nodes@, path) == Some(at as int),
            path.len() > 0,
            id < old(self).words@.len(),
            path.is_prefix_of(old(self).words@[id as int]),
        ensures
            final(self).sound(),
            forall|prefix: Seq<char>|
                walk(final(self).nodes@, prefix) == walk(old(self).nodes@, prefix),
            final(self)@ == (TrieView {
                ranked: old(self)@.ranked.insert(
                    path,
                    updated(
                        old(self)@.ranked[path],
                        old(self)@.words[id as int],
                        weight,
                        old(self)@.max_suggestions,
                    ),
                ),
                ..old(self)@
            }),
    {
        let ghost before = self.nodes@;
        let ghost words = self.words@;
        let ghost list = before[at as int].suggestions@;
        let ghost limit = self.max_suggestions as nat;
        proof {
            lemma_walk_path(before, self.paths@, path);
            assert(before[at as int].wf());
            self.words.lemma_stored_once();
            assert forall|i: int| 0 <= i < list.len() implies (#[trigger] list[i]).word
                < words.len() by {
                assert(entry_fits(self.paths@[at as int], words, list[i]));
            }
            lemma_naming_apart(list, words, id);
            lemma_updated_renamed(list, naming(words), id, weight, limit);
            lemma_updated_ranked(list, id, weight, limit);
        }
        self.nodes[at].suggestions.update(id, weight, self.max_suggestions);
        proof {
            let after = self.nodes@;
            let now = after[at as int].suggestions@;
            assert forall|prefix: Seq<char>| walk(after, prefix) == walk(before, prefix) by {
                lemma_walk_same(before, after, prefix);
            }
            assert forall|prefix: Seq<char>| #[trigger]
                ranked_at(after, words, prefix) == (if prefix == path {
                    updated(ranked_at(before, words, path), words[id as int], weight, limit)
                } else {
                    ranked_at(before, words, prefix)
                }) by {
                lemma_walk_path(before, self.paths@, prefix);
            }
            assert(self@.ranked =~= old(self)@.ranked.insert(
                path,
                updated(old(self)@.ranked[path], words[id as int], weight, limit),
            ));
            assert(linked(after, self.paths@)) by {
                assert forall|from: int, label: char|
                    0 <= from < after.len() && #[trigger] after[from].children@.contains_key(
                        label,
                    ) implies 0 <= after[from].children@[label] < after.len()
                    && self.paths@[after[from].children@[label] as int] == self.paths@[from].push(
                    label,
                ) by {
                    assert(before[from].children@.contains_key(label));
                }
            }
            assert forall|from: int, i: int|
                0 <= from < after.len() && 0 <= i
                    < after[from].suggestions@.len() implies entry_fits(
                self.paths@[from],
                words,
                #[trigger] after[from].suggestions@[i],
            ) by {
                if from == at {
                    lemma_entries_come_from(list, id, weight, limit, i);
                    if now[i].word != id {
                        let was: int = choose|was: int|
                            0 <= was < list.len() && list[was] == now[i];
                        assert(entry_fits(self.paths@[from], words, list[was]));
                    }
                } else {
                    assert(after[from].suggestions@[i] == before[from].suggestions@[i]);
                }
            }
            assert forall|from: int| 0 <= from < after.len() implies (
            #[trigger] after[from]).wf() && ranked(after[from].suggestions@, limit) by {
                assert(before[from].wf());
            }
        }
    }

    /// Inserts `word` with `weight`. A word of more characters than the trie
    /// accepts is rejected and changes nothing; any other word is stored if it
    /// is new and ranked at every one of its prefixes but the empty one.
    pub fn insert(&mut self, word: String, weight: u32) -> (accepted: bool)
        requires
            old(self).wf(),
        ensures
            final(self).wf(),
            accepted == old(self)@.accepts(word@),
            final(self)@ == old(self)@.insert(word@, weight),
            final(self)@.valid(),
    {
        let text: &str = word.as_str();
        if text.unicode_len() > self.max_word_length {
            return false;
        }
        let ghost start = self@;
        let ghost limit = self.max_suggestions as nat;
        let id: usize = self.intern(text);
        proof {
            self.best@ = raised(start.best, word@, weight);
        }
        let mut at: usize = 0;
        for label in it: text.chars()
            invariant
                it.seq() == word@,
                self.sound(),
                self@.best == raised(start.best, word@, weight),
                self@.max_word_length == start.max_word_length,
                self@.max_suggestions == start.max_suggestions,
                limit == start.max_suggestions,
                start.accepts(word@),
                self@.words == interned(start.words, word@),
                self@.prefixes == visited(start.prefixes, word@, it.index() as nat),
                id < self@.words.len(),
                self@.words[id as int] == word@,
                walk(self.nodes@, word@.take(it.index())) == Some(at as int),
                forall|prefix: Seq<char>| #[trigger]
                    self@.ranked[prefix] == (if visits(word@, prefix) && prefix.len()
                        <= it.index() {
                        updated(start.ranked[prefix], word@, weight, limit)
                    } else {
                        start.ranked[prefix]
                    }),
        {
            let ghost depth = it.index();
            let ghost path = word@.take(depth + 1);
            let ghost held = self@;
            proof {
                assert(word@.take(depth).push(label) =~= path);
                assert(path.is_prefix_of(word@));
            }
            let child: usize = self.child_or_new(at, label, Ghost(word@.take(depth)));
            self.rank_at(child, id, weight, Ghost(path));
            at = child;
            proof {
                assert forall|prefix: Seq<char>| #[trigger]
                    self@.ranked[prefix] == (if visits(word@, prefix) && prefix.len() <= depth
                        + 1 {
                        updated(start.ranked[prefix], word@, weight, limit)
                    } else {
                        start.ranked[prefix]
                    }) by {
                    assert(held.ranked[prefix] == (if visits(word@, prefix) && prefix.len()
                        <= depth {
                        updated(start.ranked[prefix], word@, weight, limit)
                    } else {
                        start.ranked[prefix]
                    }));
                    if prefix != path && visits(word@, prefix) && prefix.len() == depth + 1 {
                        assert(prefix =~= path);
                    }
                }
            }
        }
        proof {
            assert(self@.ranked =~= start.insert(word@, weight).ranked);
            lemma_insert_valid(start, word@, weight);
        }
        true
    }

    /// The identity of `word` in the word store, which stores it first if it
    /// is new. No node and no suggestion changes.
    fn intern(&mut self, word: &str) -> (id: usize)
        requires
            old(self).sound(),
            word@.len() <= old(self).max_word_length,
        ensures
            final(self).sound(),
            final(self)@ == (TrieView { words: interned(old(self)@.words, word@), ..old(self)@ }),
            final(self).nodes == old(self).nodes,
            id < final(self)@.words.len(),
            final(self)@.words[id as int] == word@,
    {
        let ghost before = self.words@;
        let id: usize = self.words.intern(word);
        proof {
            let after = self.words@;
            let nodes = self.nodes@;
            assert forall|at: int, i: int|
                0 <= at < nodes.len() && 0 <= i < nodes[at].suggestions@.len() implies entry_fits(
                self.paths@[at],
                after,
                #[trigger] nodes[at].suggestions@[i],
            ) by {
                assert(entry_fits(self.paths@[at], before, nodes[at].suggestions@[i]));
            }
            assert forall|prefix: Seq<char>| #[trigger]
                ranked_at(nodes, after, prefix) == ranked_at(nodes, before, prefix) by {
                lemma_walk_path(nodes, self.paths@, prefix);
                if let Some(at) = walk(nodes, prefix) {
                    let list = nodes[at].suggestions@;
                    assert forall|i: int| 0 <= i < list.len() implies (#[trigger] list[i]).word
                        < before.len() by {
                        assert(entry_fits(self.paths@[at], before, list[i]));
                    }
                    lemma_named_same(list, before, after);
                }
            }
            assert(self@.ranked =~= old(self)@.ranked);
            assert forall|known: int| 0 <= known < after.len() implies (
            #[trigger] after[known]).len() <= self.max_word_length by {
                if known < before.len() {
                    assert(after[known] == before[known]);
                }
            }
        }
        id
    }

    /// The words ranked at `prefix`, heaviest first; none for a prefix that
    /// no inserted word starts with.
    pub fn search(&self, prefix: &str) -> (found: Vec<String>)
        requires
            self.wf(),
        ensures
            texts(found@) == self@.search(prefix@),
            descending(self@.ranked[prefix@]),
            found@.len() <= self@.max_suggestions,
            texts(found@).no_duplicates(),
            forall|i: int| 0 <= i < found@.len() ==> prefix@.is_prefix_of(#[trigger] found@[i]@),
    {
        proof {
            self.lemma_view_valid();
            law_search_bounded_and_distinct(self@, prefix@);
            assert(ranked(self@.ranked[prefix@], self@.max_suggestions));
        }
        let mut at: usize = 0;
        for label in it: prefix.chars()
            invariant
                it.seq() == prefix@,
                self.wf(),
                walk(self.nodes@, prefix@.take(it.index())) == Some(at as int),
        {
            let ghost depth = it.index();
            proof {
                lemma_walk_path(self.nodes@, self.paths@, prefix@.take(depth));
                assert(self.nodes@[at as int].wf());
                assert(prefix@.take(depth + 1).drop_last() =~= prefix@.take(depth));
            }
            match self.nodes[at].children.get(label) {
                Some(child) => {
                    at = child;
                },
                None => {
                    let found: Vec<String> = Vec::new();
                    proof {
                        assert(prefix@.take(depth + 1).is_prefix_of(prefix@));
                        lemma_walk_dead_end(self.nodes@, prefix@.take(depth + 1), prefix@);
                        assert(texts(found@) =~= self@.search(prefix@));
                    }
                    return found;
                },
            }
        }
        proof {
            assert(prefix@.take(prefix@.len() as int) =~= prefix@);
            lemma_walk_path(self.nodes@, self.paths@, prefix@);
            assert(self.nodes@[at as int].wf());
        }
        let list: &Suggestions = &self.nodes[at].suggestions;
        let ghost ranked = list@;
        let count: usize = list.len();
        let mut found: Vec<String> = Vec::new();
        let mut i: usize = 0;
        while i < count
            invariant
                i <= count,
                count == ranked.len(),
                ranked == list@,
                list.wf(),
                found@.len() == i,
                forall|k: int|
                    0 <= k < ranked.len() ==> (#[trigger] ranked[k]).word < self.words@.len(),
                forall|k: int|
                    0 <= k < i ==> (#[trigger] found@[k])@ == self.words@[ranked[k].word as int],
            decreases count - i,
        {
            let id: usize = list.word_at(i);
            found.push(self.words.resolve(id).clone());
            i += 1;
        }
        proof {
            assert(texts(found@) =~= self@.search(prefix@));
            assert forall|i: int| 0 <= i < found@.len() implies prefix@.is_prefix_of(
                #[trigger] found@[i]@,
            ) by {
                assert(found@[i]@ == self@.ranked[prefix@][i].word);
            }
        }
        found
    }

    /// The trie with default limits that holds the vocabulary, as if its
    /// pairs had been inserted one after the other. Room is set aside for the
    /// vocabulary beforehand, and what is left of it is given back afterwards.
    pub fn build(weighted_strings: Vec<WeightedString>) -> (trie: WeightedTrie)
        ensures
            trie.wf(),
            trie@ == TrieView::build(pairs_of(weighted_strings@)),
            trie@.valid(),
    {
        let count: usize = weighted_strings.len();
        let room: usize = if count < MAX_RESERVED / NODES_PER_WORD {
            count
        } else {
            MAX_RESERVED / NODES_PER_WORD
        };
        let mut trie = WeightedTrie::with_room(
            DEFAULT_MAX_WORD_LENGTH,
            DEFAULT_MAX_SUGGESTIONS,
            room * NODES_PER_WORD,
            room,
        );
        let ghost pairs = pairs_of(weighted_strings@);
        for entry in it: weighted_strings
            invariant
                it.seq() == weighted_strings@,
                pairs == pairs_of(weighted_strings@),
                trie.wf(),
                trie@ == TrieView::build(pairs.take(it.index())),
        {
            let ghost done = it.index();
            proof {
                assert(pairs.take(done + 1).drop_last() =~= pairs.take(done));
                assert(pairs.take(done + 1).last() == (entry.word@, entry.weight));
            }
            trie.insert(entry.word, entry.weight);
        }
        proof {
            assert(pairs.take(pairs.len() as int) =~= pairs);
        }
        trie.release_excess();
        trie
    }

    /// What the trie holds, counted and estimated in bytes. The counts are
    /// exact; the byte figures follow the room that the allocator gave, which
    /// is no less than what is used. Nothing in the trie changes.
    pub fn memory_stats(&self) -> (stats: MemoryStats)
        requires
            self.wf(),
        ensures
            stats.nodes_count == self@.prefixes.len(),
            stats.nodes_vec_capacity >= stats.nodes_count,
            stats.nodes_struct_size == clamped(
                stats.nodes_vec_capacity * vstd::layout::size_of::<TrieNode>(),
            ),
            stats.suggestions_total == clamped(self@.suggestions_total() as int),
            stats.suggestions_heap_bytes >= clamped(self@.suggestions_total() * PACKED_BYTES),
            stats.words_count == self@.words.len(),
            stats.words_storage_bytes == clamped(
                bytes_among(self@.words, self@.words.len()) as int,
            ),
            stats.words_capacity_bytes >= stats.words_storage_bytes,
            stats.children_small_count == self@.small_among(self@.prefixes.len()),
            stats.children_large_count == stats.nodes_count - stats.children_small_count,
            stats.total_bytes == clamped(
                stats.nodes_struct_size + stats.suggestions_heap_bytes
                    + stats.words_capacity_bytes + stats.children_heap_bytes,
            ),
    {
        let ghost view = self@;
        let count: usize = self.nodes.len();
        let room: usize = room_of(&self.nodes);
        let mut suggestions_total: usize = 0;
        let mut suggestions_heap_bytes: usize = 0;
        let mut children_small_count: usize = 0;
        let mut children_large_count: usize = 0;
        let mut children_heap_bytes: usize = 0;
        let mut at: usize = 0;
        while at < count
            invariant
                at <= count,
                count == self.nodes@.len(),
                self.wf(),
                view == self@,
                suggestions_total == clamped(view.suggestions_among(at as nat) as int),
                suggestions_heap_bytes >= clamped(
                    view.suggestions_among(at as nat) * PACKED_BYTES,
                ),
                children_small_count == view.small_among(at as nat),
                children_small_count + children_large_count == at,
            decreases count - at,
        {
            let node: &TrieNode = &self.nodes[at];
            proof {
                assert(walk(self.nodes@, self.paths@[at as int]) == Some(at as int));
                assert(view.ranked[view.prefixes[at as int]].len() == node.suggestions@.len());
                assert(node.wf());
                node.children.lemma_fanout();
                lemma_branches(self.nodes@, self.paths@, at as int);
                assert(view.branches(view.prefixes[at as int]) == node.children@.dom());
            }
            suggestions_total = clamped_sum(suggestions_total, node.suggestions.len());
            suggestions_heap_bytes =
            clamped_sum(suggestions_heap_bytes, node.suggestions.heap_bytes());
            if node.children.is_inline() {
                children_small_count += 1;
            } else {
                children_large_count += 1;
            }
            children_heap_bytes = clamped_sum(children_heap_bytes, node.children.heap_bytes());
            at += 1;
        }
        let nodes_struct_size: usize = bytes_for(room, core::mem::size_of::<TrieNode>());
        let words_storage_bytes: usize = self.words.storage_bytes();
        let words_capacity_bytes: usize = self.words.capacity_bytes();
        let arena_bytes: usize = clamped_sum(nodes_struct_size, suggestions_heap_bytes);
        let total_bytes: usize = clamped_sum(
            clamped_sum(arena_bytes, words_capacity_bytes),
            children_heap_bytes,
        );
        MemoryStats {
            nodes_count: count,
            nodes_vec_capacity: room,
            nodes_struct_size,
            suggestions_total,
            suggestions_heap_bytes,
            words_count: self.words.len(),
            words_storage_bytes,
            words_capacity_bytes,
            children_small_count,
            children_large_count,
            children_heap_bytes,
            total_bytes,
        }
    }

    /// Gives back the room that the arena and the word store hold beyond
    /// what they use. How much room is left is up to the allocator; the
    /// nodes, the words and with them the whole view stay as they are.
    fn release_excess(&mut self)
        requires
            old(self).sound(),
        ensures
            final(self).sound(),
            final(self)@ == old(self)@,
    {
        release(&mut self.nodes);
        self.words.release_excess();
    }
}

} // verus!
