//! Ranked suggestion lists: the mathematical rules of ranking, stated over
//! sequences of weighted words of any kind.
//!
//! A ranked list is ordered from the heaviest word to the lightest, never
//! mentions a word twice and never grows beyond its limit. The only operation
//! is [`updated`], which records that a word was seen with a weight.
use vstd::prelude::*;

verus! {

/// A word together with the weight under which it is ranked.
pub struct Ranked<W> {
    pub weight: u32,
    pub word: W,
}

/// `word` has an entry in `list`.
pub open spec fn holds<W>(list: Seq<Ranked<W>>, word: W) -> bool {
    exists|i: int| 0 <= i < list.len() && (#[trigger] list[i]).word == word
}

/// Index of an entry for `word`; meaningful when `holds(list, word)`.
pub open spec fn place_of<W>(list: Seq<Ranked<W>>, word: W) -> int {
    choose|i: int| 0 <= i < list.len() && (#[trigger] list[i]).word == word
}

/// Weights never increase from the front of the list to its back.
pub open spec fn descending<W>(list: Seq<Ranked<W>>) -> bool {
    forall|i: int, j: int|
        0 <= i < j < list.len() ==> (#[trigger] list[i]).weight >= (#[trigger] list[j]).weight
}

/// No word has two entries.
pub open spec fn distinct<W>(list: Seq<Ranked<W>>) -> bool {
    forall|i: int, j: int|
        0 <= i < j < list.len() ==> (#[trigger] list[i]).word != (#[trigger] list[j]).word
}

/// The invariant of a ranked list that may hold up to `limit` entries.
pub open spec fn ranked<W>(list: Seq<Ranked<W>>, limit: nat) -> bool {
    &&& descending(list)
    &&& distinct(list)
    &&& list.len() <= limit
}

/// Every entry of `list` weighs at least `weight`.
pub open spec fn all_at_least<W>(list: Seq<Ranked<W>>, weight: u32) -> bool {
    forall|i: int| 0 <= i < list.len() ==> (#[trigger] list[i]).weight >= weight
}

/// Where a new entry of the given weight goes: behind every leading entry that
/// weighs at least as much, so that among equal weights the earlier entry
/// stays in front.
pub open spec fn slot<W>(list: Seq<Ranked<W>>, weight: u32) -> int
    decreases list.len(),
{
    if list.len() > 0 && list[0].weight >= weight {
        1 + slot(list.drop_first(), weight)
    } else {
        0
    }
}

/// `list` with the entry for `word` taken out, if it has one.
pub open spec fn without<W>(list: Seq<Ranked<W>>, word: W) -> Seq<Ranked<W>> {
    if holds(list, word) {
        list.remove(place_of(list, word))
    } else {
        list
    }
}

/// `list` cut down to its first `limit` entries.
pub open spec fn capped<W>(list: Seq<Ranked<W>>, limit: nat) -> Seq<Ranked<W>> {
    if list.len() > limit {
        list.take(limit as int)
    } else {
        list
    }
}

/// The list after `word` was seen with `weight`.
///
/// An entry for the word that weighs at least as much stays as it is. Otherwise
/// a lighter entry for the word is dropped, the new entry is put in its slot,
/// and the list is cut back to `limit` entries from the light end.
pub open spec fn updated<W>(list: Seq<Ranked<W>>, word: W, weight: u32, limit: nat) -> Seq<
    Ranked<W>,
> {
    if holds(list, word) && weight <= list[place_of(list, word)].weight {
        list
    } else {
        let rest = without(list, word);
        capped(rest.insert(slot(rest, weight), Ranked { weight, word }), limit)
    }
}

/// The slot is the one index that splits the list into entries weighing at
/// least `weight` and, directly behind them, a lighter entry or the end.
pub proof fn lemma_slot_is<W>(list: Seq<Ranked<W>>, weight: u32, at: int)
    requires
        0 <= at <= list.len(),
        forall|i: int| 0 <= i < at ==> (#[trigger] list[i]).weight >= weight,
        at < list.len() ==> list[at].weight < weight,
    ensures
        slot(list, weight) == at,
    decreases list.len(),
{
    if at > 0 {
        let tail = list.drop_first();
        assert forall|i: int| 0 <= i < at - 1 implies (#[trigger] tail[i]).weight >= weight by {
            assert(tail[i] == list[i + 1]);
        }
        lemma_slot_is(tail, weight, at - 1);
    }
}

/// What the slot splits: everything before it weighs at least `weight`, and in
/// a descending list everything from it on is lighter.
pub proof fn lemma_slot_splits<W>(list: Seq<Ranked<W>>, weight: u32)
    ensures
        0 <= slot(list, weight) <= list.len(),
        forall|i: int| 0 <= i < slot(list, weight) ==> (#[trigger] list[i]).weight >= weight,
        slot(list, weight) < list.len() ==> list[slot(list, weight)].weight < weight,
        descending(list) ==> forall|i: int|
            slot(list, weight) <= i < list.len() ==> (#[trigger] list[i]).weight < weight,
    decreases list.len(),
{
    if list.len() > 0 && list[0].weight >= weight {
        let tail = list.drop_first();
        lemma_slot_splits(tail, weight);
        assert(slot(list, weight) == 1 + slot(tail, weight));
        assert forall|i: int| 0 <= i < slot(list, weight) implies (#[trigger] list[i]).weight
            >= weight by {
            if i > 0 {
                assert(list[i] == tail[i - 1]);
            }
        }
        if slot(list, weight) < list.len() {
            assert(list[slot(list, weight)] == tail[slot(tail, weight)]);
        }
    }
    let at: int = slot(list, weight);
    if descending(list) {
        assert forall|i: int| at <= i < list.len() implies (#[trigger] list[i]).weight
            < weight by {
            assert(list[at].weight >= list[i].weight || i == at);
        }
    }
}

/// In a list of distinct words, the place of a word is the index it stands at.
pub proof fn lemma_place_is<W>(list: Seq<Ranked<W>>, word: W, at: int)
    requires
        distinct(list),
        0 <= at < list.len(),
        list[at].word == word,
    ensures
        holds(list, word),
        place_of(list, word) == at,
{
    let found: int = place_of(list, word);
    assert(0 <= found < list.len() && list[found].word == word);
    if found < at {
        assert(list[found].word != list[at].word);
    } else if at < found {
        assert(list[at].word != list[found].word);
    }
}

/// Taking a word out leaves a ranked list that no longer mentions it and keeps
/// every other entry.
pub proof fn lemma_without<W>(list: Seq<Ranked<W>>, word: W, limit: nat)
    requires
        ranked(list, limit),
    ensures
        ranked(without(list, word), limit),
        !holds(without(list, word), word),
        holds(list, word) ==> without(list, word).len() == list.len() - 1,
        forall|other: W|
            other != word ==> (holds(without(list, word), other) <==> holds(list, other)),
{
    let rest = without(list, word);
    if holds(list, word) {
        let at: int = place_of(list, word);
        assert forall|i: int, j: int| 0 <= i < j < rest.len() implies (#[trigger] rest[i]).weight
            >= (#[trigger] rest[j]).weight && rest[i].word != rest[j].word by {
            let from_i: int = if i < at { i } else { i + 1 };
            let from_j: int = if j < at { j } else { j + 1 };
            assert(rest[i] == list[from_i] && rest[j] == list[from_j]);
        }
        if holds(rest, word) {
            let again: int = place_of(rest, word);
            let from: int = if again < at { again } else { again + 1 };
            assert(rest[again] == list[from]);
            lemma_place_is(list, word, from);
        }
        assert forall|other: W| other != word implies (holds(rest, other) <==> holds(
            list,
            other,
        )) by {
            if holds(list, other) {
                let i: int = place_of(list, other);
                let to: int = if i < at { i } else { i - 1 };
                assert(rest[to] == list[i]);
            }
            if holds(rest, other) {
                let i: int = place_of(rest, other);
                let from: int = if i < at { i } else { i + 1 };
                assert(rest[i] == list[from]);
            }
        }
    }
}

/// Updating keeps a ranked list ranked.
pub proof fn lemma_updated_ranked<W>(list: Seq<Ranked<W>>, word: W, weight: u32, limit: nat)
    requires
        ranked(list, limit),
    ensures
        ranked(updated(list, word, weight, limit), limit),
{
    if !(holds(list, word) && weight <= list[place_of(list, word)].weight) {
        let rest = without(list, word);
        let at: int = slot(rest, weight);
        let entry = Ranked { weight, word };
        let grown = rest.insert(at, entry);
        lemma_without(list, word, limit);
        lemma_slot_splits(rest, weight);
        assert forall|i: int, j: int| 0 <= i < j < grown.len() implies (#[trigger] grown[i]).weight
            >= (#[trigger] grown[j]).weight && grown[i].word != grown[j].word by {
            let from_i: int = if i < at { i } else { i - 1 };
            let from_j: int = if j < at { j } else { j - 1 };
            if i != at {
                assert(grown[i] == rest[from_i]);
            }
            if j != at {
                assert(grown[j] == rest[from_j]);
            }
        }
        let result = capped(grown, limit);
        assert forall|i: int| 0 <= i < result.len() implies #[trigger] result[i] == grown[i] by {}
    }
}

/// After an update the word is in the list with at least the weight it was
/// seen with, unless the list is full of entries that weigh no less.
pub proof fn lemma_updated_holds_or_full<W>(
    list: Seq<Ranked<W>>,
    word: W,
    weight: u32,
    limit: nat,
)
    requires
        ranked(list, limit),
    ensures
        ({
            let after = updated(list, word, weight, limit);
            if holds(after, word) {
                after[place_of(after, word)].weight >= weight
            } else {
                after == list && after.len() == limit && all_at_least(after, weight)
            }
        }),
{
    let after = updated(list, word, weight, limit);
    lemma_updated_ranked(list, word, weight, limit);
    if holds(list, word) && weight <= list[place_of(list, word)].weight {
    } else {
        let rest = without(list, word);
        let at: int = slot(rest, weight);
        let grown = rest.insert(at, Ranked { weight, word });
        lemma_without(list, word, limit);
        lemma_slot_splits(rest, weight);
        if at < after.len() {
            assert(after[at] == grown[at]);
            lemma_place_is(after, word, at);
        } else {
            assert(after =~= rest);
            if holds(after, word) {
                assert(false);
            }
        }
    }
}

/// Seeing a word again with a weight that is no higher changes nothing.
pub proof fn lemma_updated_again<W>(
    list: Seq<Ranked<W>>,
    word: W,
    weight: u32,
    lighter: u32,
    limit: nat,
)
    requires
        ranked(list, limit),
        lighter <= weight,
    ensures
        updated(updated(list, word, weight, limit), word, lighter, limit) == updated(
            list,
            word,
            weight,
            limit,
        ),
{
    let once = updated(list, word, weight, limit);
    lemma_updated_holds_or_full(list, word, weight, limit);
    if !holds(once, word) {
        lemma_slot_is(once, lighter, once.len() as int);
        assert(once.insert(once.len() as int, Ranked { weight: lighter, word }).take(
            limit as int,
        ) =~= once);
    }
}

/// An update leaves the list as it is in two cases and in no other: the word
/// is listed with a weight that is no lower, or the word is not listed and
/// the list is full of entries that weigh no less.
pub proof fn lemma_updated_idle<W>(list: Seq<Ranked<W>>, word: W, weight: u32, limit: nat)
    requires
        ranked(list, limit),
    ensures
        updated(list, word, weight, limit) == list <==> if holds(list, word) {
            weight <= list[place_of(list, word)].weight
        } else {
            list.len() == limit && all_at_least(list, weight)
        },
{
    let after = updated(list, word, weight, limit);
    let rest = without(list, word);
    let at: int = slot(rest, weight);
    let entry = Ranked { weight, word };
    lemma_without(list, word, limit);
    lemma_slot_splits(rest, weight);
    lemma_updated_holds_or_full(list, word, weight, limit);
    if holds(list, word) {
        let before: int = place_of(list, word);
        if weight > list[before].weight {
            lemma_updated_raises(list, word, weight, limit);
            lemma_updated_ranked(list, word, weight, limit);
            if after == list {
                assert(after[place_of(after, word)].weight == weight);
            }
        }
    } else if list.len() == limit && all_at_least(list, weight) {
        lemma_slot_is(list, weight, list.len() as int);
        assert(list.insert(list.len() as int, entry).take(limit as int) =~= list);
    } else if list.len() < limit {
        assert(after.len() == list.len() + 1);
    } else {
        assert(at < list.len());
        assert(after[at] == list.insert(at, entry)[at]);
        if after == list {
            assert(list[at].word == word);
        }
    }
}

/// Seeing a listed word with a strictly higher weight moves its one entry to
/// the slot of the new weight, which is no further back than it stood, and
/// leaves every other entry where it was relative to the others.
pub proof fn lemma_updated_raises<W>(list: Seq<Ranked<W>>, word: W, weight: u32, limit: nat)
    requires
        ranked(list, limit),
        holds(list, word),
        weight > list[place_of(list, word)].weight,
    ensures
        ({
            let after = updated(list, word, weight, limit);
            let rest = without(list, word);
            &&& after.len() == list.len()
            &&& holds(after, word)
            &&& place_of(after, word) == slot(rest, weight)
            &&& place_of(after, word) <= place_of(list, word)
            &&& after[place_of(after, word)] == Ranked { weight, word }
            &&& without(after, word) == rest
        }),
{
    let after = updated(list, word, weight, limit);
    let rest = without(list, word);
    let before: int = place_of(list, word);
    let at: int = slot(rest, weight);
    lemma_without(list, word, limit);
    lemma_slot_splits(rest, weight);
    lemma_updated_ranked(list, word, weight, limit);
    assert(after == rest.insert(at, Ranked { weight, word }));
    lemma_place_is(after, word, at);
    assert(after.remove(at) =~= rest);
    if at > before {
        assert(rest[before] == list[before + 1]);
        assert(list[before].weight >= list[before + 1].weight);
    }
}

/// An entry that an update pushes out of the list weighs no more than any
/// entry that stays.
pub proof fn lemma_updated_drops_lightest<W>(
    list: Seq<Ranked<W>>,
    word: W,
    weight: u32,
    limit: nat,
    other: W,
)
    requires
        ranked(list, limit),
        holds(list, other),
        !holds(updated(list, word, weight, limit), other),
    ensures
        other != word,
        updated(list, word, weight, limit).len() == limit,
        all_at_least(updated(list, word, weight, limit), list[place_of(list, other)].weight),
{
    let after = updated(list, word, weight, limit);
    let rest = without(list, word);
    let at: int = slot(rest, weight);
    let grown = rest.insert(at, Ranked { weight, word });
    let lost: int = place_of(list, other);
    lemma_without(list, word, limit);
    lemma_slot_splits(rest, weight);
    lemma_updated_ranked(list, word, weight, limit);
    lemma_updated_holds_or_full(list, word, weight, limit);
    if other == word {
        if holds(list, word) && weight <= list[place_of(list, word)].weight {
        } else {
            assert(after[at] == grown[at]);
        }
        assert(false);
    }
    assert(holds(rest, other));
    let was: int = place_of(rest, other);
    let now: int = if was < at { was } else { was + 1 };
    assert(grown[now] == rest[was]);
    if now < after.len() {
        assert(after[now] == grown[now]);
        assert(false);
    }
    assert(grown.len() > limit);
    assert(after.len() == limit);
    assert(descending(grown)) by {
        assert forall|i: int, j: int| 0 <= i < j < grown.len() implies (#[trigger] grown[i]).weight
            >= (#[trigger] grown[j]).weight by {
            let from_i: int = if i < at { i } else { i - 1 };
            let from_j: int = if j < at { j } else { j - 1 };
            if i != at {
                assert(grown[i] == rest[from_i]);
            }
            if j != at {
                assert(grown[j] == rest[from_j]);
            }
        }
    }
    if holds(list, word) {
        let gone: int = place_of(list, word);
        let from: int = if was < gone { was } else { was + 1 };
        assert(rest[was] == list[from]);
        lemma_place_is(list, other, from);
    }
    assert(rest[was] == list[lost]);
    assert forall|i: int| 0 <= i < after.len() implies (#[trigger] after[i]).weight
        >= list[lost].weight by {
        assert(after[i] == grown[i]);
        assert(grown[i].weight >= grown[now].weight);
    }
}

/// Every entry of an updated list is the entry of the word that was seen or
/// an entry of the list before.
pub proof fn lemma_entries_come_from<W>(
    list: Seq<Ranked<W>>,
    word: W,
    weight: u32,
    limit: nat,
    i: int,
)
    requires
        ranked(list, limit),
        0 <= i < updated(list, word, weight, limit).len(),
    ensures
        updated(list, word, weight, limit)[i].word == word || exists|from: int|
            0 <= from < list.len() && list[from] == updated(list, word, weight, limit)[i],
{
    let now = updated(list, word, weight, limit);
    if holds(list, word) && weight <= list[place_of(list, word)].weight {
        assert(list[i] == now[i]);
    } else {
        let rest = without(list, word);
        let at: int = slot(rest, weight);
        let grown = rest.insert(at, Ranked { weight, word });
        lemma_without(list, word, limit);
        lemma_slot_splits(rest, weight);
        assert(now[i] == grown[i]);
        if i != at {
            let in_rest: int = if i < at { i } else { i - 1 };
            assert(grown[i] == rest[in_rest]);
            if holds(list, word) {
                let gone: int = place_of(list, word);
                let from: int = if in_rest < gone { in_rest } else { in_rest + 1 };
                assert(rest[in_rest] == list[from]);
            } else {
                assert(rest[in_rest] == list[in_rest]);
            }
        }
    }
}

/// The best weights after `word` was seen with `weight`: the weight, unless a
/// best weight that is no lower was known for the word.
pub open spec fn raised<W>(best: Map<W, u32>, word: W, weight: u32) -> Map<W, u32> {
    best.insert(
        word,
        if best.contains_key(word) && best[word] >= weight {
            best[word]
        } else {
            weight
        },
    )
}

/// `list` holds the heaviest of the candidates: every entry is a candidate
/// with its best weight, and a candidate is left out only of a full list whose
/// entries all weigh at least its best weight.
pub open spec fn heaviest<W>(
    list: Seq<Ranked<W>>,
    limit: nat,
    candidates: Set<W>,
    best: Map<W, u32>,
) -> bool {
    &&& forall|i: int|
        0 <= i < list.len() ==> candidates.contains((#[trigger] list[i]).word)
            && best[list[i].word] == list[i].weight
    &&& forall|word: W|
        #[trigger] candidates.contains(word) && !holds(list, word) ==> list.len() == limit
            && all_at_least(list, best[word])
}

/// An update keeps the heaviest of the candidates in the list, the word that
/// was seen now being one of them.
pub proof fn lemma_updated_heaviest<W>(
    list: Seq<Ranked<W>>,
    word: W,
    weight: u32,
    limit: nat,
    candidates: Set<W>,
    best: Map<W, u32>,
)
    requires
        ranked(list, limit),
        heaviest(list, limit, candidates, best),
        candidates.contains(word) <==> best.contains_key(word),
    ensures
        heaviest(
            updated(list, word, weight, limit),
            limit,
            candidates.insert(word),
            raised(best, word, weight),
        ),
{
    let after = updated(list, word, weight, limit);
    let rest = without(list, word);
    let at: int = slot(rest, weight);
    let grown = rest.insert(at, Ranked { weight, word });
    let idle = holds(list, word) && weight <= list[place_of(list, word)].weight;
    lemma_without(list, word, limit);
    lemma_slot_splits(rest, weight);
    lemma_updated_ranked(list, word, weight, limit);
    lemma_updated_holds_or_full(list, word, weight, limit);
    if holds(list, word) {
        assert(candidates.contains(list[place_of(list, word)].word));
    }
    // the weight of every entry that the seen word pushes back or out is below
    // the seen weight
    assert(!idle && at < rest.len() ==> rest[at].weight < weight);
    assert forall|i: int| 0 <= i < after.len() implies candidates.insert(word).contains(
        (#[trigger] after[i]).word,
    ) && raised(best, word, weight)[after[i].word] == after[i].weight by {
        if after[i].word == word {
            lemma_place_is(after, word, i);
            if idle {
                lemma_place_is(list, word, i);
            } else {
                assert(after[i] == grown[i]);
                if i != at {
                    let in_rest: int = if i < at { i } else { i - 1 };
                    assert(grown[i] == rest[in_rest]);
                    assert(holds(rest, word));
                }
                if !holds(list, word) && candidates.contains(word) {
                    assert(rest == list);
                    assert(at < list.len());
                    assert(list[at].weight >= best[word]);
                }
            }
        } else {
            lemma_entries_come_from(list, word, weight, limit, i);
            let from: int = choose|from: int| 0 <= from < list.len() && list[from] == after[i];
            assert(candidates.contains(list[from].word));
        }
    }
    assert forall|other: W| #[trigger]
        candidates.insert(word).contains(other) && !holds(after, other) implies after.len()
        == limit && all_at_least(after, raised(best, word, weight)[other]) by {
        if other == word {
            assert(after == list);
        } else if holds(list, other) {
            lemma_updated_drops_lightest(list, word, weight, limit, other);
            assert(best[list[place_of(list, other)].word] == list[place_of(list, other)].weight);
        } else {
            assert(list.len() == limit && all_at_least(list, best[other]));
            if !idle {
                assert(grown.len() >= limit);
                assert forall|i: int| 0 <= i < after.len() implies (#[trigger] after[i]).weight
                    >= best[other] by {
                    assert(after[i] == grown[i]);
                    if i != at {
                        lemma_entries_come_from(list, word, weight, limit, i);
                        if after[i].word != word {
                            let from: int = choose|from: int|
                                0 <= from < list.len() && list[from] == after[i];
                            assert(list[from].weight >= best[other]);
                        } else {
                            lemma_place_is(after, word, i);
                            assert(after[at] == grown[at]);
                            lemma_place_is(after, word, at);
                        }
                    } else if holds(list, word) {
                        assert(list[place_of(list, word)].weight >= best[other]);
                    } else {
                        assert(rest == list);
                        assert(list[at].weight >= best[other]);
                    }
                }
            }
        }
    }
}

/// The weights of a list, renamed word by word.
pub open spec fn renamed<A, B>(list: Seq<Ranked<A>>, name: spec_fn(A) -> B) -> Seq<Ranked<B>> {
    Seq::new(list.len(), |i: int| Ranked { weight: list[i].weight, word: name(list[i].word) })
}

/// `name` gives different names to different words of `list`.
pub open spec fn names_apart_in<A, B>(list: Seq<Ranked<A>>, name: spec_fn(A) -> B) -> bool {
    forall|i: int, j: int|
        0 <= i < list.len() && 0 <= j < list.len() && name((#[trigger] list[i]).word) == name(
            (#[trigger] list[j]).word,
        ) ==> list[i].word == list[j].word
}

/// `name` gives different names to the words of `list` and to `word`.
pub open spec fn names_apart<A, B>(list: Seq<Ranked<A>>, word: A, name: spec_fn(A) -> B) -> bool {
    &&& names_apart_in(list, name)
    &&& forall|i: int|
        0 <= i < list.len() && name((#[trigger] list[i]).word) == name(word) ==> list[i].word
            == word
}

/// The slot depends on the weights alone.
pub proof fn lemma_slot_renamed<A, B>(list: Seq<Ranked<A>>, name: spec_fn(A) -> B, weight: u32)
    ensures
        slot(renamed(list, name), weight) == slot(list, weight),
{
    lemma_slot_splits(list, weight);
    lemma_slot_is(renamed(list, name), weight, slot(list, weight));
}

/// Ranking does not look inside the words: updating and then renaming is the
/// same as renaming and then updating, as long as the renaming keeps the words
/// apart.
pub proof fn lemma_updated_renamed<A, B>(
    list: Seq<Ranked<A>>,
    name: spec_fn(A) -> B,
    word: A,
    weight: u32,
    limit: nat,
)
    requires
        distinct(list),
        names_apart(list, word, name),
    ensures
        distinct(renamed(list, name)),
        holds(renamed(list, name), name(word)) == holds(list, word),
        renamed(updated(list, word, weight, limit), name) == updated(
            renamed(list, name),
            name(word),
            weight,
            limit,
        ),
{
    let named = renamed(list, name);
    assert(distinct(named)) by {
        assert forall|i: int, j: int| 0 <= i < j < named.len() implies (#[trigger] named[i]).word
            != (#[trigger] named[j]).word by {
            assert(list[i].word != list[j].word);
        }
    }
    if holds(list, word) {
        let at: int = place_of(list, word);
        assert(named[at].word == name(word));
        lemma_place_is(named, name(word), at);
    }
    if holds(named, name(word)) {
        let at: int = place_of(named, name(word));
        assert(name(list[at].word) == name(word));
        lemma_place_is(list, word, at);
    }
    assert(renamed(without(list, word), name) =~= without(named, name(word)));
    let rest = without(list, word);
    lemma_slot_renamed(rest, name, weight);
    lemma_slot_splits(rest, weight);
    let grown = rest.insert(slot(rest, weight), Ranked { weight, word });
    assert(renamed(grown, name) =~= renamed(rest, name).insert(
        slot(rest, weight),
        Ranked { weight, word: name(word) },
    ));
    assert(renamed(capped(grown, limit), name) =~= capped(renamed(grown, name), limit));
}

} // verus!
