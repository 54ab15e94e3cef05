//! The suggestion list of one node: ranked entries, each packed into a single
//! integer with the weight in the high half and the word identity in the low
//! half.
use crate::ranking::{lemma_place_is, lemma_slot_is, ranked, updated, Ranked};
use crate::room::{bytes_for, clamped, room_of};
use vstd::prelude::*;

verus! {

/// What one unit of weight is worth in a packed entry: the word identity takes
/// the 64 bits below it.
pub const WEIGHT_UNIT: u128 = 0x1_0000_0000_0000_0000;

/// The bytes that one packed entry takes.
pub const PACKED_BYTES: usize = 16;

/// The packed form of an entry.
pub open spec fn packed(weight: u32, word: usize) -> u128 {
    (weight as u128 * WEIGHT_UNIT + word as u128) as u128
}

/// The weight that a packed entry carries.
pub open spec fn weight_in(entry: u128) -> u32 {
    (entry / WEIGHT_UNIT) as u32
}

/// The word identity that a packed entry carries.
pub open spec fn word_in(entry: u128) -> usize {
    (entry % WEIGHT_UNIT) as usize
}

/// `entry` is the packed form of some weight and word identity.
pub open spec fn well_packed(entry: u128) -> bool {
    &&& entry / WEIGHT_UNIT <= u32::MAX
    &&& entry % WEIGHT_UNIT <= usize::MAX
}

/// The entry that a packed integer stands for.
pub open spec fn unpacked(entry: u128) -> Ranked<usize> {
    Ranked { weight: weight_in(entry), word: word_in(entry) }
}

/// Packs a weight and a word identity into one integer, weight on top.
pub fn pack(weight: u32, word: usize) -> (entry: u128)
    ensures
        entry == packed(weight, word),
        well_packed(entry),
        weight_in(entry) == weight,
        word_in(entry) == word,
{
    let high: u128 = weight as u128;
    let low: u128 = word as u128;
    assert((high << 64) | low == high * 0x1_0000_0000_0000_0000u128 + low) by (bit_vector)
        requires
            high < 0x1_0000_0000u128,
            low < 0x1_0000_0000_0000_0000u128,
    ;
    (high << 64) | low
}

/// Reads the weight out of a packed entry.
pub fn weight_of(entry: u128) -> (weight: u32)
    requires
        well_packed(entry),
    ensures
        weight == weight_in(entry),
{
    assert(entry >> 64 == entry / 0x1_0000_0000_0000_0000u128) by (bit_vector);
    (entry >> 64) as u32
}

/// Reads the word identity out of a packed entry.
pub fn word_of(entry: u128) -> (word: usize)
    requires
        well_packed(entry),
    ensures
        word == word_in(entry),
{
    assert(entry & 0xFFFF_FFFF_FFFF_FFFFu128 == entry % 0x1_0000_0000_0000_0000u128)
        by (bit_vector);
    (entry & 0xFFFF_FFFF_FFFF_FFFF) as usize
}

/// A ranked list of packed entries.
pub struct Suggestions {
    entries: Vec<u128>,
}

impl View for Suggestions {
    type V = Seq<Ranked<usize>>;

    closed spec fn view(&self) -> Seq<Ranked<usize>> {
        Seq::new(self.entries@.len(), |i: int| unpacked(self.entries@[i]))
    }
}

impl Suggestions {
    /// Every stored integer is the packed form of an entry.
    pub closed spec fn wf(&self) -> bool {
        forall|i: int| 0 <= i < self.entries@.len() ==> well_packed(#[trigger] self.entries@[i])
    }

    /// An empty list.
    pub fn new() -> (list: Suggestions)
        ensures
            list.wf(),
            list@ == Seq::<Ranked<usize>>::empty(),
    {
        let list = Suggestions { entries: Vec::new() };
        assert(list@ =~= Seq::<Ranked<usize>>::empty());
        list
    }

    /// The number of entries.
    pub fn len(&self) -> (count: usize)
        ensures
            count == self@.len(),
    {
        self.entries.len()
    }

    /// The bytes that the list holds room for, which are no less than the
    /// bytes that its entries take.
    pub fn heap_bytes(&self) -> (bytes: usize)
        ensures
            bytes >= clamped(self@.len() * PACKED_BYTES),
    {
        bytes_for(room_of(&self.entries), PACKED_BYTES)
    }

    /// The word identity of the entry at `place`.
    pub fn word_at(&self, place: usize) -> (word: usize)
        requires
            self.wf(),
            place < self@.len(),
        ensures
            word == self@[place as int].word,
    {
        word_of(self.entries[place])
    }

    /// The weight of the entry at `place`.
    pub fn weight_at(&self, place: usize) -> (weight: u32)
        requires
            self.wf(),
            place < self@.len(),
        ensures
            weight == self@[place as int].weight,
    {
        weight_of(self.entries[place])
    }

    /// Records that `word` was seen with `weight`, in a list that may hold up
    /// to `limit` entries.
    pub fn update(&mut self, word: usize, weight: u32, limit: usize)
        requires
            old(self).wf(),
            ranked(old(self)@, limit as nat),
        ensures
            final(self).wf(),
            final(self)@ == updated(old(self)@, word, weight, limit as nat),
    {
        let ghost before = self@;
        let count: usize = self.entries.len();
        let mut place: usize = 0;
        while place < count && word_of(self.entries[place]) != word
            invariant
                place <= count,
                count == self.entries@.len(),
                self.wf(),
                self@ == before,
                forall|k: int| 0 <= k < place ==> (#[trigger] before[k]).word != word,
            decreases count - place,
        {
            place += 1;
        }
        if place < count {
            proof {
                lemma_place_is(before, word, place as int);
            }
            if weight <= weight_of(self.entries[place]) {
                return ;
            }
            self.entries.remove(place);
        }
        let ghost rest = self@;
        assert(rest =~= crate::ranking::without(before, word));
        let floor: u128 = pack(weight, 0);
        let kept: usize = self.entries.len();
        let mut at: usize = 0;
        while at < kept && self.entries[at] >= floor
            invariant
                at <= kept,
                kept == self.entries@.len(),
                self.wf(),
                self@ == rest,
                floor == packed(weight, 0),
                forall|k: int| 0 <= k < at ==> (#[trigger] rest[k]).weight >= weight,
            decreases kept - at,
        {
            at += 1;
        }
        proof {
            lemma_slot_is(rest, weight, at as int);
        }
        let ghost grown = rest.insert(at as int, Ranked { weight, word });
        if at < limit {
            self.entries.insert(at, pack(weight, word));
            assert(self@ =~= grown);
            if self.entries.len() > limit {
                self.entries.truncate(limit);
                assert(self@ =~= grown.take(limit as int));
            }
        } else {
            assert(grown.take(limit as int) =~= rest);
        }
    }
}

} // verus!
