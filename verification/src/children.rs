//! The child table of one node: which node each next character leads to.
//!
//! Most nodes have very few children, so a table starts as a short list that
//! is searched from front to back. When a child is added to a full list the
//! table turns into a hash map, once and for good.
use crate::room::{bytes_for, clamped, room_of, table_room};
use std::collections::HashMap;
use vstd::prelude::*;

verus! {

broadcast use vstd::std_specs::hash::group_hash_axioms;

/// The number of children that a table holds as a list.
pub const INLINE_CAPACITY: usize = 4;

enum Edges {
    Small(Vec<(char, usize)>),
    Large(HashMap<u32, usize>),
}

/// A map from characters to node positions that adapts its form to its size.
pub struct ChildTable {
    edges: Edges,
    /// The characters that lead somewhere, in the order in which they were
    /// added.
    labels: Ghost<Seq<char>>,
}

/// Some edge of `list` is labelled `label`.
spec fn listed(list: Seq<(char, usize)>, label: char) -> bool {
    exists|i: int| 0 <= i < list.len() && (#[trigger] list[i]).0 == label
}

/// The index of an edge of `list` labelled `label`.
spec fn edge_of(list: Seq<(char, usize)>, label: char) -> int {
    choose|i: int| 0 <= i < list.len() && (#[trigger] list[i]).0 == label
}

/// No two edges of `list` carry the same label.
spec fn labels_apart(list: Seq<(char, usize)>) -> bool {
    forall|i: int, j: int|
        0 <= i < j < list.len() ==> (#[trigger] list[i]).0 != (#[trigger] list[j]).0
}

/// The map that a list of edges stands for.
spec fn list_map(list: Seq<(char, usize)>) -> Map<char, usize> {
    Map::new(|label: char| listed(list, label), |label: char| list[edge_of(list, label)].1)
}

/// The code point of a character, which is the key it has in a hash map.
spec fn code(label: char) -> u32 {
    label as u32
}

/// The map that a hash map keyed by code points stands for.
spec fn code_map(codes: Map<u32, usize>) -> Map<char, usize> {
    Map::new(|label: char| codes.contains_key(code(label)), |label: char| codes[code(label)])
}

/// Different characters have different code points.
proof fn lemma_codes_apart(a: char, b: char)
    ensures
        code(a) == code(b) ==> a == b,
{
}

/// With labels apart, the edge of a label is the index it stands at.
proof fn lemma_edge_is(list: Seq<(char, usize)>, label: char, at: int)
    requires
        labels_apart(list),
        0 <= at < list.len(),
        list[at].0 == label,
    ensures
        listed(list, label),
        edge_of(list, label) == at,
{
    let found: int = edge_of(list, label);
    if found < at {
        assert(list[found].0 != list[at].0);
    } else if at < found {
        assert(list[at].0 != list[found].0);
    }
}

/// Giving the edge at `at` another target changes the map at its label only.
proof fn lemma_list_retargeted(was: Seq<(char, usize)>, at: int, child: usize)
    requires
        labels_apart(was),
        0 <= at < was.len(),
    ensures
        labels_apart(was.update(at, (was[at].0, child))),
        list_map(was.update(at, (was[at].0, child))) == list_map(was).insert(was[at].0, child),
{
    let label = was[at].0;
    let now = was.update(at, (label, child));
    assert forall|i: int, j: int| 0 <= i < j < now.len() implies (#[trigger] now[i]).0 != (
    #[trigger] now[j]).0 by {
        assert(now[i].0 == was[i].0 && now[j].0 == was[j].0);
    }
    assert forall|other: char| #[trigger]
        listed(now, other) == listed(was, other) && (listed(now, other) ==> now[edge_of(
            now,
            other,
        )].1 == (if other == label {
            child
        } else {
            was[edge_of(was, other)].1
        })) by {
        if listed(was, other) {
            let k: int = edge_of(was, other);
            assert(now[k].0 == other);
            lemma_edge_is(now, other, k);
        }
        if listed(now, other) {
            let k: int = edge_of(now, other);
            assert(was[k].0 == other);
            lemma_edge_is(was, other, k);
        }
    }
    lemma_edge_is(was, label, at);
    assert(list_map(now) =~= list_map(was).insert(label, child));
}

/// An edge with a label of its own, put behind the others, adds that label
/// to the map.
proof fn lemma_list_extended(was: Seq<(char, usize)>, label: char, child: usize)
    requires
        labels_apart(was),
        !listed(was, label),
    ensures
        labels_apart(was.push((label, child))),
        list_map(was.push((label, child))) == list_map(was).insert(label, child),
{
    let now = was.push((label, child));
    let count: int = was.len() as int;
    assert forall|i: int, j: int| 0 <= i < j < now.len() implies (#[trigger] now[i]).0 != (
    #[trigger] now[j]).0 by {
        assert(now[i] == was[i]);
        if j < count {
            assert(now[j] == was[j]);
        }
    }
    assert forall|other: char| #[trigger]
        listed(now, other) == (other == label || listed(was, other)) && (listed(now, other)
            ==> now[edge_of(now, other)].1 == (if other == label {
            child
        } else {
            was[edge_of(was, other)].1
        })) by {
        if listed(was, other) {
            let k: int = edge_of(was, other);
            assert(now[k] == was[k]);
            lemma_edge_is(now, other, k);
        }
        if other == label {
            lemma_edge_is(now, other, count);
        }
        if listed(now, other) {
            let k: int = edge_of(now, other);
            if k < count {
                assert(now[k] == was[k]);
                lemma_edge_is(was, other, k);
            }
        }
    }
    assert(list_map(now) =~= list_map(was).insert(label, child));
}

/// A key and value put into a hash map of code points put the character and
/// the value into the map that it stands for.
proof fn lemma_code_map_insert(codes: Map<u32, usize>, label: char, child: usize)
    ensures
        code_map(codes.insert(code(label), child)) == code_map(codes).insert(label, child),
{
    assert forall|other: char| code(other) == code(label) implies other == label by {
        lemma_codes_apart(other, label);
    }
    assert(code_map(codes.insert(code(label), child)) =~= code_map(codes).insert(label, child));
}

/// Computes the code point of a character.
fn code_of(label: char) -> (key: u32)
    ensures
        key == code(label),
{
    label as u32
}

/// The index of the edge labelled `label`, or the length of the list if no
/// edge is.
fn find(list: &Vec<(char, usize)>, label: char) -> (at: usize)
    ensures
        at <= list@.len(),
        forall|k: int| 0 <= k < at ==> (#[trigger] list@[k]).0 != label,
        at < list@.len() ==> list@[at as int].0 == label,
{
    let count: usize = list.len();
    let mut at: usize = 0;
    while at < count && list[at].0 != label
        invariant
            at <= count,
            count == list@.len(),
            forall|k: int| 0 <= k < at ==> (#[trigger] list@[k]).0 != label,
        decreases count - at,
    {
        at += 1;
    }
    at
}

/// A hash map that holds the edges of a list, with room for as many again.
fn hashed(list: &Vec<(char, usize)>) -> (codes: HashMap<u32, usize>)
    requires
        labels_apart(list@),
    ensures
        code_map(codes@) == list_map(list@),
{
    let count: usize = list.len();
    let mut codes: HashMap<u32, usize> = HashMap::with_capacity(2 * INLINE_CAPACITY);
    let mut moved: usize = 0;
    while moved < count
        invariant
            moved <= count,
            count == list@.len(),
            labels_apart(list@),
            code_map(codes@) == list_map(list@.take(moved as int)),
        decreases count - moved,
    {
        let edge: (char, usize) = list[moved];
        proof {
            let done = list@.take(moved as int);
            assert(labels_apart(done)) by {
                assert forall|i: int, j: int| 0 <= i < j < done.len() implies (
                #[trigger] done[i]).0 != (#[trigger] done[j]).0 by {
                    assert(done[i] == list@[i] && done[j] == list@[j]);
                }
            }
            if listed(done, edge.0) {
                let k: int = edge_of(done, edge.0);
                assert(list@[k].0 != list@[moved as int].0);
            }
            lemma_list_extended(done, edge.0, edge.1);
            lemma_code_map_insert(codes@, edge.0, edge.1);
            assert(done.push(edge) =~= list@.take(moved + 1));
        }
        codes.insert(code_of(edge.0), edge.1);
        moved += 1;
    }
    proof {
        assert(list@.take(count as int) =~= list@);
        if count == 0 {
            assert(code_map(codes@) =~= list_map(list@));
        }
    }
    codes
}

impl View for ChildTable {
    type V = Map<char, usize>;

    closed spec fn view(&self) -> Map<char, usize> {
        match self.edges {
            Edges::Small(list) => list_map(list@),
            Edges::Large(codes) => code_map(codes@),
        }
    }
}

impl ChildTable {
    /// The characters that lead somewhere are known one by one; a list holds
    /// each of them once and stays within the inline capacity, and a hash map
    /// holds more than that.
    pub closed spec fn wf(&self) -> bool {
        &&& self.labels@.no_duplicates()
        &&& self@.dom() =~= self.labels@.to_set()
        &&& match self.edges {
            Edges::Small(list) => {
                &&& labels_apart(list@)
                &&& list@.len() == self.labels@.len()
                &&& list@.len() <= INLINE_CAPACITY
            },
            Edges::Large(codes) => self.labels@.len() > INLINE_CAPACITY,
        }
    }

    /// The table is still a list.
    pub closed spec fn inline(&self) -> bool {
        self.edges is Small
    }

    /// The number of children.
    pub closed spec fn fanout(&self) -> nat {
        self.labels@.len()
    }

    /// The children are finitely many, as many as the fanout says, and the
    /// table is a list exactly as long as they are within the inline
    /// capacity.
    pub proof fn lemma_fanout(&self)
        requires
            self.wf(),
        ensures
            self@.dom().finite(),
            self@.dom().len() == self.fanout(),
            self.inline() <==> self.fanout() <= INLINE_CAPACITY,
    {
        broadcast use vstd::seq_lib::seq_to_set_is_finite;

        self.labels@.unique_seq_to_set();
    }

    /// A table without children.
    pub fn new() -> (table: ChildTable)
        ensures
            table.wf(),
            table.inline(),
            table.fanout() == 0,
            table@ == Map::<char, usize>::empty(),
    {
        let table = ChildTable {
            edges: Edges::Small(Vec::new()),
            labels: Ghost(Seq::<char>::empty()),
        };
        assert(table@ =~= Map::<char, usize>::empty());
        table
    }

    /// Whether the table is still a list.
    pub fn is_inline(&self) -> (inline: bool)
        ensures
            inline == self.inline(),
    {
        match &self.edges {
            Edges::Small(_) => true,
            Edges::Large(_) => false,
        }
    }

    /// An estimate of the bytes that the table holds room for: the room of
    /// the list or of the hash map, times the size of an edge. For a list it
    /// is no less than the bytes that its edges take.
    pub fn heap_bytes(&self) -> (bytes: usize)
        requires
            self.wf(),
        ensures
            self.inline() ==> bytes >= clamped(
                (self.fanout() * vstd::layout::size_of::<(char, usize)>()) as int,
            ),
    {
        match &self.edges {
            Edges::Small(list) => {
                let room: usize = room_of(list);
                let unit: usize = core::mem::size_of::<(char, usize)>();
                assert(list@.len() * unit <= room * unit) by (nonlinear_arith)
                    requires
                        list@.len() <= room,
                        unit >= 0,
                ;
                bytes_for(room, unit)
            },
            Edges::Large(codes) => bytes_for(
                table_room(codes),
                core::mem::size_of::<(u32, usize)>(),
            ),
        }
    }

    /// The child that `label` leads to, if there is one.
    pub fn get(&self, label: char) -> (child: Option<usize>)
        requires
            self.wf(),
        ensures
            child == (if self@.contains_key(label) {
                Some(self@[label])
            } else {
                None
            }),
    {
        match &self.edges {
            Edges::Small(list) => {
                let at: usize = find(list, label);
                if at < list.len() {
                    proof {
                        lemma_edge_is(list@, label, at as int);
                    }
                    Some(list[at].1)
                } else {
                    None
                }
            },
            Edges::Large(codes) => {
                let key: u32 = code_of(label);
                match codes.get(&key) {
                    Some(child) => Some(*child),
                    None => None,
                }
            },
        }
    }

    /// Makes `label` lead to `child`, whether or not it led anywhere before.
    /// A list that is full turns into a hash map when it gets one more label.
    pub fn set(&mut self, label: char, child: usize)
        requires
            old(self).wf(),
        ensures
            final(self).wf(),
            final(self)@ == old(self)@.insert(label, child),
            final(self).fanout() == old(self).fanout() + (if old(self)@.contains_key(label) {
                0nat
            } else {
                1nat
            }),
    {
        let ghost before = self@;
        let ghost known = self.labels@;
        match &mut self.edges {
            Edges::Small(list) => {
                let ghost was = list@;
                let at: usize = find(list, label);
                if at < list.len() {
                    list[at] = (label, child);
                    proof {
                        lemma_list_retargeted(was, at as int, child);
                        lemma_edge_is(was, label, at as int);
                    }
                } else if list.len() < INLINE_CAPACITY {
                    list.push((label, child));
                    proof {
                        lemma_list_extended(was, label, child);
                    }
                } else {
                    let mut codes: HashMap<u32, usize> = hashed(list);
                    let ghost held = codes@;
                    codes.insert(code_of(label), child);
                    proof {
                        lemma_code_map_insert(held, label, child);
                    }
                    self.edges = Edges::Large(codes);
                }
            },
            Edges::Large(codes) => {
                let ghost was = codes@;
                codes.insert(code_of(label), child);
                proof {
                    lemma_code_map_insert(was, label, child);
                }
            },
        }
        proof {
            if !before.contains_key(label) {
                self.labels@ = known.push(label);
                assert(known.push(label).no_duplicates()) by {
                    assert(!known.to_set().contains(label));
                    assert forall|i: int, j: int|
                        0 <= i < known.len() + 1 && 0 <= j < known.len() + 1 && i
                            != j implies known.push(label)[i] != known.push(label)[j] by {
                        if i < known.len() {
                            assert(known.contains(known[i]));
                        }
                        if j < known.len() {
                            assert(known.contains(known[j]));
                        }
                    }
                }
                assert(known.push(label).to_set() =~= known.to_set().insert(label)) by {
                    assert forall|other: char| #[trigger]
                        known.push(label).contains(other) <==> other == label || known.contains(
                            other,
                        ) by {
                        if known.contains(other) {
                            let k: int = choose|k: int| 0 <= k < known.len() && known[k] == other;
                            assert(known.push(label)[k] == other);
                        }
                        if other == label {
                            assert(known.push(label)[known.len() as int] == label);
                        }
                    }
                }
            } else {
                assert(known.to_set().contains(label));
                assert(known.to_set().insert(label) =~= known.to_set());
            }
            assert(self@.dom() =~= before.dom().insert(label));
        }
    }
}

} // verus!
