//! Weights, held exactly, and the map that gathers them by key triple.
//!
//! The mapper never computes with the weights of the corpus. A weight is
//! carried as a share of the weight of one corpus trigram: that weight, times a
//! power of the penalty factor for keys pressed at once, divided by the number
//! of ways of typing among which it was split. The weight of a key triple is the
//! sum of the shares gathered under it.

use crate::layout::KeyTriple;
use vstd::prelude::*;

verus! {

/// A share of the weight of one corpus trigram.
#[derive(Clone, Copy, Debug, PartialEq, Eq, Structural)]
pub struct Weight {
    /// The position of the trigram in the corpus table.
    pub source: usize,
    /// The power of the penalty factor by which its weight is multiplied.
    pub penalty: u8,
    /// The number by which its weight is divided; at least 1 in a valid share.
    pub paths: u64,
}

impl Weight {
    /// The whole weight of the trigram at `source`.
    pub open spec fn spec_whole(source: usize) -> Weight {
        Weight { source, penalty: 0, paths: 1 }
    }

    /// This share split evenly among `ways`.
    pub open spec fn spec_split(self, ways: u64) -> Weight {
        Weight { source: self.source, penalty: self.penalty, paths: (self.paths * ways) as u64 }
    }

    pub fn whole(source: usize) -> (r: Weight)
        ensures
            r == Weight::spec_whole(source),
    {
        Weight { source, penalty: 0, paths: 1 }
    }

    pub fn split(self, ways: u64) -> (r: Weight)
        requires
            self.paths * ways <= u64::MAX,
        ensures
            r == self.spec_split(ways),
    {
        Weight { source: self.source, penalty: self.penalty, paths: self.paths * ways }
    }
}

/// The shares gathered under one key triple, in the order in which they came.
pub type Entry = (KeyTriple, Seq<Weight>);

/// The place of the entry for `key`, if there is one.
pub open spec fn position(entries: Seq<Entry>, key: KeyTriple) -> Option<int>
    decreases entries.len(),
{
    if entries.len() == 0 {
        None
    } else {
        match position(entries.drop_last(), key) {
            Some(i) => Some(i),
            None => if entries.last().0 == key {
                Some(entries.len() - 1)
            } else {
                None
            },
        }
    }
}

/// The entries after `weight` has been added under `key`: it joins the entry
/// for `key`, or starts a new one at the end.
pub open spec fn add_weight(entries: Seq<Entry>, key: KeyTriple, weight: Weight) -> Seq<Entry> {
    match position(entries, key) {
        Some(i) => entries.update(i, (key, entries[i].1.push(weight))),
        None => entries.push((key, seq![weight])),
    }
}

/// The entries after each of `contributions` has been added in turn.
pub open spec fn add_all(entries: Seq<Entry>, contributions: Seq<(KeyTriple, Weight)>) -> Seq<Entry>
    decreases contributions.len(),
{
    if contributions.len() == 0 {
        entries
    } else {
        let c = contributions.last();
        add_weight(add_all(entries, contributions.drop_last()), c.0, c.1)
    }
}

/// The entries that gather `contributions` by key.
pub open spec fn accumulate(contributions: Seq<(KeyTriple, Weight)>) -> Seq<Entry> {
    add_all(Seq::empty(), contributions)
}

/// The weights of `contributions` that come under `key`, in order.
pub open spec fn weights_under(contributions: Seq<(KeyTriple, Weight)>, key: KeyTriple) -> Seq<
    Weight,
>
    decreases contributions.len(),
{
    if contributions.len() == 0 {
        Seq::empty()
    } else {
        let c = contributions.last();
        let before = weights_under(contributions.drop_last(), key);
        if c.0 == key {
            before.push(c.1)
        } else {
            before
        }
    }
}

/// The weights that `entries` hold under `key`; none where there is no entry.
pub open spec fn weights_of(entries: Seq<Entry>, key: KeyTriple) -> Seq<Weight> {
    match position(entries, key) {
        Some(i) => entries[i].1,
        None => Seq::empty(),
    }
}

/// No two entries have the same key.
pub open spec fn keys_distinct(entries: Seq<Entry>) -> bool {
    forall|i: int, j: int|
        0 <= i < entries.len() && 0 <= j < entries.len() && i != j ==> (#[trigger] entries[i]).0
            != (#[trigger] entries[j]).0
}

/// Where `position` finds an entry, it is the first one for the key; where it
/// finds none, no entry has the key.
pub proof fn lemma_position(entries: Seq<Entry>, key: KeyTriple)
    ensures
        match position(entries, key) {
            Some(i) => 0 <= i < entries.len() && entries[i].0 == key && forall|j: int|
                0 <= j < i ==> (#[trigger] entries[j]).0 != key,
            None => forall|j: int| 0 <= j < entries.len() ==> (#[trigger] entries[j]).0 != key,
        },
    decreases entries.len(),
{
    if entries.len() > 0 {
        lemma_position(entries.drop_last(), key);
        assert(forall|j: int|
            0 <= j < entries.len() - 1 ==> entries.drop_last()[j] == #[trigger] entries[j]);
    }
}

/// Where the keys are distinct, the entry with the key is the one that
/// `position` finds.
pub proof fn lemma_position_at(entries: Seq<Entry>, i: int)
    requires
        keys_distinct(entries),
        0 <= i < entries.len(),
    ensures
        position(entries, entries[i].0) == Some(i),
{
    lemma_position(entries, entries[i].0);
}

/// Adding a weight keeps the keys distinct, keeps the entries that were there
/// in their places, and leaves an entry for the key.
pub proof fn lemma_add_weight(entries: Seq<Entry>, key: KeyTriple, weight: Weight)
    requires
        keys_distinct(entries),
    ensures
        keys_distinct(add_weight(entries, key, weight)),
        add_weight(entries, key, weight).len() >= entries.len(),
        position(add_weight(entries, key, weight), key).is_some(),
        weights_of(add_weight(entries, key, weight), key) == weights_of(entries, key).push(weight),
        forall|other: KeyTriple|
            other != key ==> position(add_weight(entries, key, weight), other) == position(
                entries,
                other,
            ) && weights_of(add_weight(entries, key, weight), other) == weights_of(entries, other),
{
    let after = add_weight(entries, key, weight);
    lemma_position(entries, key);
    assert(keys_distinct(after));
    match position(entries, key) {
        Some(i) => {
            lemma_position_at(after, i);
        },
        None => {
            lemma_position_at(after, entries.len() as int);
        },
    }
    assert forall|other: KeyTriple| other != key implies position(after, other) == position(
        entries,
        other,
    ) && weights_of(after, other) == weights_of(entries, other) by {
        lemma_position(entries, other);
        lemma_position(after, other);
        match position(entries, other) {
            Some(j) => {
                lemma_position_at(after, j);
            },
            None => {
                if position(after, other).is_some() {
                    let j = position(after, other).unwrap();
                    assert(after[j].0 == other);
                    assert(false);
                }
            },
        }
    }
}

/// The accumulator invariant: however the contributions are interleaved, the
/// entries hold under each key exactly the weights contributed under it, in the
/// order in which they came, and no key has two entries. Nothing is
/// overwritten and nothing is made up.
pub proof fn lemma_accumulate_gathers(contributions: Seq<(KeyTriple, Weight)>, key: KeyTriple)
    ensures
        keys_distinct(accumulate(contributions)),
        weights_of(accumulate(contributions), key) == weights_under(contributions, key),
        position(accumulate(contributions), key).is_some() <==> weights_under(
            contributions,
            key,
        ).len() > 0,
    decreases contributions.len(),
{
    if contributions.len() > 0 {
        let c = contributions.last();
        let before = accumulate(contributions.drop_last());
        lemma_accumulate_gathers(contributions.drop_last(), key);
        lemma_add_weight(before, c.0, c.1);
    }
}

/// Adding two runs of contributions one after the other adds their
/// concatenation.
pub proof fn lemma_add_all_concat(
    entries: Seq<Entry>,
    first: Seq<(KeyTriple, Weight)>,
    second: Seq<(KeyTriple, Weight)>,
)
    ensures
        add_all(entries, first + second) == add_all(add_all(entries, first), second),
    decreases second.len(),
{
    if second.len() == 0 {
        assert(first + second =~= first);
    } else {
        assert((first + second).drop_last() =~= first + second.drop_last());
        lemma_add_all_concat(entries, first, second.drop_last());
    }
}

/// Adding under a key of which `key_ok` holds keeps `key_ok` of every key.
pub proof fn lemma_add_weight_keys(
    entries: Seq<Entry>,
    key: KeyTriple,
    weight: Weight,
    key_ok: spec_fn(KeyTriple) -> bool,
)
    requires
        forall|i: int| 0 <= i < entries.len() ==> key_ok((#[trigger] entries[i]).0),
        key_ok(key),
    ensures
        forall|i: int|
            0 <= i < add_weight(entries, key, weight).len() ==> key_ok(
                (#[trigger] add_weight(entries, key, weight)[i]).0,
            ),
{
    lemma_position(entries, key);
}

/// Adding a weight of which `weight_ok` holds keeps `weight_ok` of every
/// weight.
pub proof fn lemma_add_weight_weights(
    entries: Seq<Entry>,
    key: KeyTriple,
    weight: Weight,
    weight_ok: spec_fn(Weight) -> bool,
)
    requires
        forall|i: int, j: int|
            0 <= i < entries.len() && 0 <= j < entries[i].1.len() ==> weight_ok(
                #[trigger] entries[i].1[j],
            ),
        weight_ok(weight),
    ensures
        forall|i: int, j: int|
            0 <= i < add_weight(entries, key, weight).len() && 0 <= j < add_weight(
                entries,
                key,
                weight,
            )[i].1.len() ==> weight_ok(#[trigger] add_weight(entries, key, weight)[i].1[j]),
{
    lemma_position(entries, key);
    let after = add_weight(entries, key, weight);
    assert forall|i: int, j: int|
        0 <= i < after.len() && 0 <= j < after[i].1.len() implies weight_ok(
        #[trigger] after[i].1[j],
    ) by {
        match position(entries, key) {
            Some(p) => {
                if i == p {
                    if j < entries[p].1.len() {
                        assert(after[i].1[j] == entries[i].1[j]);
                    }
                } else {
                    assert(after[i].1[j] == entries[i].1[j]);
                }
            },
            None => {
                if i < entries.len() {
                    assert(after[i].1[j] == entries[i].1[j]);
                }
            },
        }
    }
}

/// `key_ok` holds of the key and `weight_ok` of the weight of every
/// contribution.
pub open spec fn contributions_all(
    contributions: Seq<(KeyTriple, Weight)>,
    key_ok: spec_fn(KeyTriple) -> bool,
    weight_ok: spec_fn(Weight) -> bool,
) -> bool {
    forall|i: int|
        0 <= i < contributions.len() ==> key_ok((#[trigger] contributions[i]).0) && weight_ok(
            contributions[i].1,
        )
}

/// `key_ok` holds of every key and `weight_ok` of every weight of the entries.
pub open spec fn entries_all(
    entries: Seq<Entry>,
    key_ok: spec_fn(KeyTriple) -> bool,
    weight_ok: spec_fn(Weight) -> bool,
) -> bool {
    &&& forall|i: int| 0 <= i < entries.len() ==> key_ok((#[trigger] entries[i]).0)
    &&& forall|i: int, j: int|
        0 <= i < entries.len() && 0 <= j < entries[i].1.len() ==> weight_ok(
            #[trigger] entries[i].1[j],
        )
}

/// What holds of every entry and of every contribution holds of every entry
/// after the contributions have been added: the keys and the weights of the
/// result are those that were put in.
pub proof fn lemma_add_all_keeps(
    entries: Seq<Entry>,
    contributions: Seq<(KeyTriple, Weight)>,
    key_ok: spec_fn(KeyTriple) -> bool,
    weight_ok: spec_fn(Weight) -> bool,
)
    requires
        entries_all(entries, key_ok, weight_ok),
        contributions_all(contributions, key_ok, weight_ok),
    ensures
        entries_all(add_all(entries, contributions), key_ok, weight_ok),
    decreases contributions.len(),
{
    if contributions.len() > 0 {
        let c = contributions.last();
        let before = add_all(entries, contributions.drop_last());
        assert(contributions_all(contributions.drop_last(), key_ok, weight_ok)) by {
            assert forall|i: int| 0 <= i < contributions.drop_last().len() implies key_ok(
                (#[trigger] contributions.drop_last()[i]).0,
            ) && weight_ok(contributions.drop_last()[i].1) by {
                assert(contributions.drop_last()[i] == contributions[i]);
            }
        }
        lemma_add_all_keeps(entries, contributions.drop_last(), key_ok, weight_ok);
        lemma_add_weight_keys(before, c.0, c.1, key_ok);
        lemma_add_weight_weights(before, c.0, c.1, weight_ok);
    }
}

/// Every entry has a weight.
pub open spec fn entries_nonempty(entries: Seq<Entry>) -> bool {
    forall|i: int| 0 <= i < entries.len() ==> (#[trigger] entries[i]).1.len() > 0
}

/// Adding contributions leaves no entry without a weight.
pub proof fn lemma_add_all_nonempty(entries: Seq<Entry>, contributions: Seq<(KeyTriple, Weight)>)
    requires
        entries_nonempty(entries),
    ensures
        entries_nonempty(add_all(entries, contributions)),
    decreases contributions.len(),
{
    if contributions.len() > 0 {
        let c = contributions.last();
        let before = add_all(entries, contributions.drop_last());
        lemma_add_all_nonempty(entries, contributions.drop_last());
        lemma_position(before, c.0);
    }
}

/// What an `AHashMap` from key triples to places holds: the place stored
/// under each key.
pub uninterp spec fn index_entries(
    index: ahash::AHashMap<(u16, u16, u16), usize, ahash::RandomState>,
) -> Map<(u16, u16, u16), usize>;

/// `ahash::AHashMap`, a hash map. Nothing is known of a value of it but what
/// [`index_entries`] says.
#[verifier::external_type_specification]
#[verifier::external_body]
#[verifier::reject_recursive_types(K)]
#[verifier::reject_recursive_types(V)]
#[verifier::reject_recursive_types(S)]
pub struct ExAHashMap<K, V, S>(ahash::AHashMap<K, V, S>);

/// `ahash::RandomState`, the hasher of the map. It is only carried along.
#[verifier::external_type_specification]
#[verifier::external_body]
pub struct ExRandomState(ahash::RandomState);

/// Calls `AHashMap::new`: the new map holds nothing.
#[verifier::external_body]
fn index_new() -> (index: ahash::AHashMap<(u16, u16, u16), usize, ahash::RandomState>)
    ensures
        index_entries(index).dom() == Set::<(u16, u16, u16)>::empty(),
{
    ahash::AHashMap::new()
}

/// Calls `AHashMap::get`: the value stored under the key, if the map holds the
/// key.
#[verifier::external_body]
fn index_get(
    index: &ahash::AHashMap<(u16, u16, u16), usize, ahash::RandomState>,
    key: (u16, u16, u16),
) -> (found: Option<usize>)
    ensures
        found == (if index_entries(*index).contains_key(key) {
            Some(index_entries(*index)[key])
        } else {
            None
        }),
{
    index.get(&key).copied()
}

/// Calls `AHashMap::insert`: afterwards the map holds the value under the key,
/// and under every other key what it held before.
#[verifier::external_body]
fn index_insert(
    index: &mut ahash::AHashMap<(u16, u16, u16), usize, ahash::RandomState>,
    key: (u16, u16, u16),
    value: usize,
)
    ensures
        index_entries(*final(index)) == index_entries(*old(index)).insert(key, value),
{
    index.insert(key, value);
}

/// The weights of key triples: for each key triple that has any, the shares
/// gathered under it.
pub struct TrigramIndices {
    index: ahash::AHashMap<(u16, u16, u16), usize, ahash::RandomState>,
    entries: Vec<(KeyTriple, Vec<Weight>)>,
}

impl View for TrigramIndices {
    type V = Seq<Entry>;

    /// The entries, in the order in which their keys first came.
    closed spec fn view(&self) -> Seq<Entry> {
        Seq::new(self.entries@.len(), |i: int| (self.entries@[i].0, self.entries@[i].1@))
    }
}

impl TrigramIndices {
    /// The index knows exactly the keys of the entries, each with its place,
    /// and every entry has a weight.
    pub closed spec fn wf(&self) -> bool {
        &&& forall|i: int|
            0 <= i < self.entries@.len() ==> (#[trigger] self.entries@[i]).1@.len() > 0
        &&& forall|i: int|
            0 <= i < self.entries@.len() ==> index_entries(self.index).contains_key(
                (#[trigger] self.entries@[i]).0,
            ) && index_entries(self.index)[self.entries@[i].0] == i
        &&& forall|key: KeyTriple| #[trigger]
            index_entries(self.index).contains_key(key) ==> index_entries(self.index)[key]
                < self.entries@.len() && self.entries@[index_entries(self.index)[key] as int].0
                == key
    }

    /// In a valid accumulator no key has two entries and every entry has a
    /// weight.
    pub proof fn lemma_wf_distinct(&self)
        requires
            self.wf(),
        ensures
            keys_distinct(self@),
            forall|i: int| 0 <= i < self@.len() ==> (#[trigger] self@[i]).1.len() > 0,
    {
        assert forall|i: int| 0 <= i < self@.len() implies (#[trigger] self@[i]).1.len() > 0 by {
            assert(self.entries@[i].1@.len() > 0);
        }
        assert forall|i: int, j: int|
            0 <= i < self@.len() && 0 <= j < self@.len() && i != j implies (#[trigger] self@[i]).0
            != (#[trigger] self@[j]).0 by {
            assert(self.entries@[i].0 == self@[i].0);
            assert(self.entries@[j].0 == self@[j].0);
        }
    }

    /// An accumulator without entries.
    pub fn new() -> (r: TrigramIndices)
        ensures
            r.wf(),
            r@ == Seq::<Entry>::empty(),
    {
        let r = TrigramIndices { index: index_new(), entries: Vec::new() };
        assert(r@ =~= Seq::<Entry>::empty());
        r
    }

    /// The number of key triples that have a weight.
    pub fn len(&self) -> (n: usize)
        ensures
            n == self@.len(),
    {
        self.entries.len()
    }

    /// The key triple of the entry at `i`.
    pub fn key_at(&self, i: usize) -> (key: KeyTriple)
        requires
            i < self@.len(),
        ensures
            key == self@[i as int].0,
    {
        self.entries[i].0
    }

    /// The shares of the entry at `i`.
    pub fn weights_at(&self, i: usize) -> (weights: &Vec<Weight>)
        requires
            i < self@.len(),
        ensures
            weights@ == self@[i as int].1,
    {
        &self.entries[i].1
    }

    /// The place of the entry for `key`, if it has one.
    pub fn find(&self, key: KeyTriple) -> (found: Option<usize>)
        requires
            self.wf(),
        ensures
            match found {
                Some(i) => position(self@, key) == Some(i as int),
                None => position(self@, key).is_none(),
            },
    {
        let found = index_get(&self.index, key);
        proof {
            self.lemma_wf_distinct();
            lemma_position(self@, key);
            match found {
                Some(i) => {
                    assert(self@[i as int].0 == self.entries@[i as int].0);
                    lemma_position_at(self@, i as int);
                },
                None => {
                    if position(self@, key).is_some() {
                        let p = position(self@, key).unwrap();
                        assert(self.entries@[p].0 == self@[p].0);
                    }
                },
            }
        }
        found
    }

    /// The shares gathered under `key`, if it has any.
    pub fn get(&self, key: KeyTriple) -> (weights: Option<&Vec<Weight>>)
        requires
            self.wf(),
        ensures
            match weights {
                Some(list) => position(self@, key).is_some() && list@ == weights_of(self@, key),
                None => position(self@, key).is_none(),
            },
    {
        match self.find(key) {
            Some(i) => {
                proof {
                    lemma_position(self@, key);
                }
                Some(&self.entries[i].1)
            },
            None => None,
        }
    }

    /// Adds `weight` to what `key` has: nothing that was there is replaced.
    pub fn insert_or_add_weight(&mut self, key: KeyTriple, weight: Weight)
        requires
            old(self).wf(),
        ensures
            final(self).wf(),
            final(self)@ == add_weight(old(self)@, key, weight),
    {
        match self.find(key) {
            Some(i) => {
                proof {
                    lemma_position(self@, key);
                }
                self.entries[i].1.push(weight);
                assert(self@ =~= add_weight(old(self)@, key, weight));
                assert(forall|j: int|
                    0 <= j < self.entries@.len() ==> (#[trigger] self.entries@[j]).0 == old(
                        self,
                    ).entries@[j].0);
            },
            None => {
                let n = self.entries.len();
                let mut weights: Vec<Weight> = Vec::new();
                weights.push(weight);
                self.entries.push((key, weights));
                index_insert(&mut self.index, key, n);
                proof {
                    lemma_position(old(self)@, key);
                    assert(self@ =~= add_weight(old(self)@, key, weight));
                    assert forall|j: int| 0 <= j < old(self).entries@.len() implies old(
                        self,
                    ).entries@[j].0 != key by {
                        assert(old(self)@[j].0 == old(self).entries@[j].0);
                    }
                }
            },
        }
    }
}

} // verus!
