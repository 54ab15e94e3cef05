//! The word store: one canonical copy of every distinct word, each known to
//! the rest of the trie by its identity, the position at which it was stored.
use crate::room::{
    bytes_for, clamped, clamped_sum, release, room_of, text_room, MAX_RESERVED,
};
use vstd::hash_map::StringHashMap;
use vstd::prelude::*;
use vstd::utf8::encode_utf8;

verus! {

/// Interned words, in the order in which they were first seen.
pub struct WordStore {
    words: Vec<String>,
    ids: StringHashMap<usize>,
}

impl View for WordStore {
    type V = Seq<Seq<char>>;

    /// The stored words; the identity of a word is its index.
    closed spec fn view(&self) -> Seq<Seq<char>> {
        Seq::new(self.words@.len(), |id: int| self.words@[id]@)
    }
}

/// The identity under which `word` is stored in `words`, if it is stored.
pub open spec fn identity_of(words: Seq<Seq<char>>, word: Seq<char>) -> int {
    choose|id: int| 0 <= id < words.len() && words[id] == word
}

/// No word is stored under two identities.
pub open spec fn stored_once(words: Seq<Seq<char>>) -> bool {
    forall|a: int, b: int| 0 <= a < b < words.len() ==> words[a] != words[b]
}

/// The words after `word` was interned: unchanged if it was stored already,
/// else with `word` at the end.
pub open spec fn interned(words: Seq<Seq<char>>, word: Seq<char>) -> Seq<Seq<char>> {
    if words.contains(word) {
        words
    } else {
        words.push(word)
    }
}

/// The bytes that the first `count` of the words take together, each encoded
/// as UTF-8.
pub open spec fn bytes_among(words: Seq<Seq<char>>, count: nat) -> nat
    decreases count,
{
    if count == 0 {
        0
    } else {
        bytes_among(words, (count - 1) as nat) + encode_utf8(words[count - 1]).len()
    }
}

impl WordStore {
    /// The index from words to identities mirrors the stored words.
    pub closed spec fn wf(&self) -> bool {
        &&& forall|id: int|
            0 <= id < self.words@.len() ==> self.ids@.contains_key(#[trigger] self.words@[id]@)
                && self.ids@[self.words@[id]@] == id
        &&& forall|word: Seq<char>| #[trigger]
            self.ids@.contains_key(word) ==> 0 <= self.ids@[word] < self.words@.len()
                && self.words@[self.ids@[word] as int]@ == word
    }

    /// A well-formed store holds no word twice.
    pub proof fn lemma_stored_once(&self)
        requires
            self.wf(),
        ensures
            stored_once(self@),
    {
        assert forall|a: int, b: int| 0 <= a < b < self@.len() implies self@[a] != self@[b] by {
            assert(self.ids@[self.words@[a]@] == a);
            assert(self.ids@[self.words@[b]@] == b);
        }
    }

    /// An empty store.
    pub fn new() -> (store: WordStore)
        ensures
            store.wf(),
            store@ == Seq::<Seq<char>>::empty(),
    {
        let store = WordStore { words: Vec::new(), ids: StringHashMap::new() };
        assert(store@ =~= Seq::<Seq<char>>::empty());
        store
    }

    /// An empty store with room for `capacity` words. The capacity decides
    /// how much is allocated ahead, and nothing else: the store is empty.
    pub fn with_capacity(capacity: usize) -> (store: WordStore)
        requires
            capacity <= MAX_RESERVED,
        ensures
            store.wf(),
            store@ == Seq::<Seq<char>>::empty(),
    {
        let store = WordStore {
            words: Vec::with_capacity(capacity),
            ids: StringHashMap::with_capacity(capacity),
        };
        assert(store@ =~= Seq::<Seq<char>>::empty());
        store
    }

    /// The number of stored words.
    pub fn len(&self) -> (count: usize)
        ensures
            count == self@.len(),
    {
        self.words.len()
    }

    /// The identity of `word`, which is stored first if it is new.
    pub fn intern(&mut self, word: &str) -> (id: usize)
        requires
            old(self).wf(),
        ensures
            final(self).wf(),
            final(self)@ == interned(old(self)@, word@),
            0 <= id < final(self)@.len(),
            final(self)@[id as int] == word@,
            old(self)@.contains(word@) ==> id == identity_of(old(self)@, word@),
            !old(self)@.contains(word@) ==> id == old(self)@.len(),
    {
        let ghost before = self@;
        proof {
            self.lemma_stored_once();
        }
        let known: Option<usize> = match self.ids.get(word) {
            Some(id) => Some(*id),
            None => None,
        };
        match known {
            Some(id) => {
                proof {
                    assert(before[id as int] == word@);
                    let chosen: int = identity_of(before, word@);
                    assert(before[chosen] == word@);
                    if chosen < id {
                        assert(before[chosen] != before[id as int]);
                    } else if id < chosen {
                        assert(before[id as int] != before[chosen]);
                    }
                }
                id
            },
            None => {
                proof {
                    if before.contains(word@) {
                        let at: int = choose|at: int| 0 <= at < before.len() && before[at] == word@;
                        assert(self.ids@.contains_key(self.words@[at]@));
                    }
                }
                let id: usize = self.words.len();
                self.ids.insert(word.to_owned(), id);
                self.words.push(word.to_owned());
                proof {
                    assert(self@ =~= before.push(word@));
                    assert forall|at: int|
                        0 <= at < self.words@.len() implies self.ids@.contains_key(
                        #[trigger] self.words@[at]@,
                    ) && self.ids@[self.words@[at]@] == at by {
                        if at < id {
                            assert(self.words@[at]@ == before[at]);
                        }
                    }
                }
                id
            },
        }
    }

    /// Gives back the room that the stored words hold beyond what they use.
    /// How much room is left is up to the allocator; the words and their
    /// identities stay as they are.
    pub fn release_excess(&mut self)
        requires
            old(self).wf(),
        ensures
            final(self).wf(),
            final(self)@ == old(self)@,
    {
        release(&mut self.words);
    }

    /// The bytes that the stored words take together, held at the largest
    /// machine word if they are more.
    pub fn storage_bytes(&self) -> (bytes: usize)
        ensures
            bytes == clamped(bytes_among(self@, self@.len()) as int),
    {
        let count: usize = self.words.len();
        let mut bytes: usize = 0;
        let mut id: usize = 0;
        while id < count
            invariant
                id <= count,
                count == self.words@.len(),
                bytes == clamped(bytes_among(self@, id as nat) as int),
            decreases count - id,
        {
            bytes = clamped_sum(bytes, self.words[id].as_str().as_bytes().len());
            id += 1;
        }
        bytes
    }

    /// The bytes that the store holds room for: the room of every stored
    /// word, and the room of the list that holds them. It is no less than
    /// the bytes that the words take.
    pub fn capacity_bytes(&self) -> (bytes: usize)
        ensures
            bytes >= clamped(bytes_among(self@, self@.len()) as int),
    {
        let count: usize = self.words.len();
        let mut bytes: usize = 0;
        let mut id: usize = 0;
        while id < count
            invariant
                id <= count,
                count == self.words@.len(),
                bytes >= clamped(bytes_among(self@, id as nat) as int),
            decreases count - id,
        {
            bytes = clamped_sum(bytes, text_room(&self.words[id]));
            id += 1;
        }
        clamped_sum(bytes, bytes_for(room_of(&self.words), core::mem::size_of::<String>()))
    }

    /// The word stored under `id`.
    pub fn resolve(&self, id: usize) -> (word: &String)
        requires
            id < self@.len(),
        ensures
            word@ == self@[id as int],
    {
        &self.words[id]
    }
}

} // verus!
