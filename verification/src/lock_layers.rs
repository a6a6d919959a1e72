//! Resolving layer locks: a key on a locked layer is typed as its base key, and
//! where the layer changes between two keys of a trigram, neither of them
//! whitespace, a key that switches layers may have been pressed in between.

use crate::accumulator::{accumulate, Entry, TrigramIndices, Weight};
use crate::common::lemma_div_below;
use crate::layout::{
    char_is_whitespace, is_whitespace, KeyTriple, LayerKey, LayerKeyIndex, LayerModifierType,
    LayerModifiers, Layout,
};
use crate::trigram_mapper::OnDemandTrigramMapper;
use crate::windows::{extend_windows, lemma_present_members, present, tagged_windows};
use vstd::prelude::*;

verus! {

/// The most ways of typing among which the weight of one key triple is split:
/// four places for a switch, with at most three candidate keys each.
pub const MAX_LOCK_WAYS: u64 = 81;

/// The keys that switch to the layer of `key`: the modifiers of a held key.
pub open spec fn switch_candidates(key: LayerKey) -> Seq<LayerKeyIndex> {
    match key.modifiers {
        LayerModifiers::Hold(mods) => mods@,
        _ => Seq::empty(),
    }
}

/// What may be pressed at one place between two keys: any one of the
/// candidates where a switch is offered and there are candidates, and nothing
/// otherwise.
pub open spec fn switch_slot(candidates: Seq<LayerKeyIndex>, offered: bool) -> Seq<
    Option<LayerKeyIndex>,
> {
    if offered && candidates.len() > 0 {
        candidates.map_values(|m: LayerKeyIndex| Some(m))
    } else {
        seq![None]
    }
}

/// The three keys of a trigram as they are typed, and what may be pressed
/// after the first, before and after the second, and before the third.
pub struct LockPlan {
    pub key1: LayerKeyIndex,
    pub after1: Seq<Option<LayerKeyIndex>>,
    pub before2: Seq<Option<LayerKeyIndex>>,
    pub key2: LayerKeyIndex,
    pub after2: Seq<Option<LayerKeyIndex>>,
    pub before3: Seq<Option<LayerKeyIndex>>,
    pub key3: LayerKeyIndex,
}

/// The key as which `idx` is typed: the base key of a held key that has
/// modifiers, and the key itself otherwise.
pub open spec fn typed_key(layout: &Layout, idx: LayerKeyIndex) -> LayerKeyIndex {
    if switch_candidates(layout.layerkeys@[idx as int]).len() > 0 {
        layout.spec_base(idx)
    } else {
        idx
    }
}

/// Whether a switch may have been pressed between two keys that are typed one
/// after the other: only where neither of them is whitespace and they lie on
/// different layers.
pub open spec fn switch_offered(first: LayerKey, second: LayerKey) -> bool {
    !char_is_whitespace(first.symbol) && !char_is_whitespace(second.symbol) && first.layer
        != second.layer
}

/// The plan for a trigram. Between the first and the second key a switch is
/// offered after the first and before the second, each from the candidates of
/// its own key, where [`switch_offered`] holds of the two keys; likewise
/// between the second and the third key.
pub open spec fn lock_plan(layout: &Layout, key: KeyTriple) -> LockPlan {
    let lk1 = layout.layerkeys@[key.0 as int];
    let lk2 = layout.layerkeys@[key.1 as int];
    let lk3 = layout.layerkeys@[key.2 as int];
    LockPlan {
        key1: typed_key(layout, key.0),
        after1: switch_slot(switch_candidates(lk1), switch_offered(lk1, lk2)),
        before2: switch_slot(switch_candidates(lk2), switch_offered(lk1, lk2)),
        key2: typed_key(layout, key.1),
        after2: switch_slot(switch_candidates(lk2), switch_offered(lk2, lk3)),
        before3: switch_slot(switch_candidates(lk3), switch_offered(lk2, lk3)),
        key3: typed_key(layout, key.2),
    }
}

impl LockPlan {
    /// The number of ways of typing the trigram: one choice at each place.
    pub open spec fn ways(self) -> nat {
        self.after1.len() * self.before2.len() * self.after2.len() * self.before3.len()
    }

    /// The `n`-th way of typing the trigram, counting with the last place
    /// turning fastest.
    pub open spec fn path(self, n: int) -> Seq<LayerKeyIndex> {
        let d = n % (self.before3.len() as int);
        let n1 = n / (self.before3.len() as int);
        let c = n1 % (self.after2.len() as int);
        let n2 = n1 / (self.after2.len() as int);
        let b = n2 % (self.before2.len() as int);
        let a = n2 / (self.before2.len() as int);
        present(
            seq![
                Some(self.key1),
                self.after1[a],
                self.before2[b],
                Some(self.key2),
                self.after2[c],
                self.before3[d],
                Some(self.key3),
            ],
        )
    }

    /// The key triples of the first `n` ways, each with the number of all
    /// ways.
    pub open spec fn targets_upto(self, n: int) -> Seq<(KeyTriple, u64)>
        decreases n,
    {
        if n <= 0 {
            Seq::empty()
        } else {
            self.targets_upto(n - 1) + tagged_windows(self.path(n - 1), self.ways() as u64)
        }
    }

    /// The key triples of all ways.
    pub open spec fn targets(self) -> Seq<(KeyTriple, u64)> {
        self.targets_upto(self.ways() as int)
    }
}

/// Whether `idx` lies on a locked layer.
pub open spec fn on_lock_layer(layout: &Layout, idx: LayerKeyIndex) -> bool {
    layout.layerkeys@[idx as int].modifiers.kind() == LayerModifierType::Lock
}

/// The key triples among which the weight of `key` is shared, each with the
/// number by which the weight is divided.
///
/// A trigram without a key on a locked layer stays as it is. One that starts
/// on a locked layer and stays on that layer is typed with the base keys. Any
/// other is typed in each way of its plan, and each way gets an even part.
pub open spec fn spec_lock_targets(layout: &Layout, key: KeyTriple) -> Seq<(KeyTriple, u64)> {
    let lk1 = layout.layerkeys@[key.0 as int];
    let lk2 = layout.layerkeys@[key.1 as int];
    let lk3 = layout.layerkeys@[key.2 as int];
    if !on_lock_layer(layout, key.0) && !on_lock_layer(layout, key.1) && !on_lock_layer(
        layout,
        key.2,
    ) {
        seq![(key, 1u64)]
    } else if on_lock_layer(layout, key.0) && lk1.layer == lk2.layer && lk2.layer == lk3.layer {
        seq![((lk1.base, lk2.base, lk3.base), 1u64)]
    } else {
        lock_plan(layout, key).targets()
    }
}

/// The contributions of one entry: under each target, each of the weights,
/// divided by the target's number.
pub open spec fn share_out(targets: Seq<(KeyTriple, u64)>, weights: Seq<Weight>) -> Seq<
    (KeyTriple, Weight),
>
    decreases targets.len(),
{
    if targets.len() == 0 {
        Seq::empty()
    } else {
        let t = targets.last();
        share_out(targets.drop_last(), weights) + weights.map_values(
            |w: Weight| (t.0, w.spec_split(t.1)),
        )
    }
}

/// The contributions of all entries, in their order.
pub open spec fn lock_contributions(layout: &Layout, entries: Seq<Entry>) -> Seq<
    (KeyTriple, Weight),
>
    decreases entries.len(),
{
    if entries.len() == 0 {
        Seq::empty()
    } else {
        let e = entries.last();
        lock_contributions(layout, entries.drop_last()) + share_out(
            spec_lock_targets(layout, e.0),
            e.1,
        )
    }
}

/// Every key of the entries is a key of the layout.
pub open spec fn keys_within(entries: Seq<Entry>, layout: &Layout) -> bool {
    forall|i: int| 0 <= i < entries.len() ==> layout.has_keys((#[trigger] entries[i]).0)
}

/// Every weight of the entries can be split among [`MAX_LOCK_WAYS`] ways
/// within the range of its divisor.
pub open spec fn splittable(entries: Seq<Entry>) -> bool {
    forall|i: int, j: int|
        0 <= i < entries.len() && 0 <= j < entries[i].1.len() ==> (#[trigger] entries[i].1[j]).paths
            * MAX_LOCK_WAYS <= u64::MAX
}

/// Every slot of `slots` that holds a key holds a key below `len`.
pub open spec fn slots_below(slots: Seq<Option<LayerKeyIndex>>, len: int) -> bool {
    forall|i: int|
        0 <= i < slots.len() ==> ((#[trigger] slots[i]) matches Some(k) ==> (k as int) < len)
}

proof fn lemma_present_push(slots: Seq<Option<LayerKeyIndex>>, slot: Option<LayerKeyIndex>)
    ensures
        present(slots.push(slot)) == match slot {
            Some(key) => present(slots).push(key),
            None => present(slots),
        },
{
    assert(slots.push(slot).drop_last() =~= slots);
}

fn candidates_of(key: &LayerKey) -> (r: &[LayerKeyIndex])
    ensures
        r@ == switch_candidates(*key),
{
    match &key.modifiers {
        LayerModifiers::Hold(mods) => mods.as_slice(),
        _ => &[],
    }
}

fn make_slot(candidates: &[LayerKeyIndex], offered: bool) -> (slot: Vec<Option<LayerKeyIndex>>)
    ensures
        slot@ == switch_slot(candidates@, offered),
{
    let mut slot: Vec<Option<LayerKeyIndex>> = Vec::new();
    if offered && candidates.len() > 0 {
        let mut i: usize = 0;
        while i < candidates.len()
            invariant
                i <= candidates@.len(),
                slot@ == candidates@.take(i as int).map_values(|m: LayerKeyIndex| Some(m)),
            decreases candidates@.len() - i,
        {
            slot.push(Some(candidates[i]));
            assert(slot@ =~= candidates@.take(i as int + 1).map_values(
                |m: LayerKeyIndex| Some(m),
            ));
            i += 1;
        }
        assert(candidates@.take(candidates@.len() as int) =~= candidates@);
    } else {
        slot.push(None);
        assert(slot@ =~= seq![None]);
    }
    slot
}

fn push_present(
    path: &mut Vec<LayerKeyIndex>,
    slot: Option<LayerKeyIndex>,
    Ghost(slots): Ghost<Seq<Option<LayerKeyIndex>>>,
)
    requires
        old(path)@ == present(slots),
    ensures
        final(path)@ == present(slots.push(slot)),
{
    proof {
        lemma_present_push(slots, slot);
    }
    match slot {
        Some(key) => {
            path.push(key);
        },
        None => {},
    }
}

proof fn lemma_slot_below(layout: &Layout, idx: LayerKeyIndex, offered: bool)
    requires
        layout.wf(),
        layout.has_key(idx),
    ensures
        slots_below(
            switch_slot(switch_candidates(layout.layerkeys@[idx as int]), offered),
            layout.layerkeys@.len() as int,
        ),
        1 <= switch_slot(switch_candidates(layout.layerkeys@[idx as int]), offered).len() <= 3,
        layout.has_key(typed_key(layout, idx)),
{
    let key = layout.layerkeys@[idx as int];
    let len = layout.layerkeys@.len() as int;
    assert(crate::layout::layerkey_valid(key, len));
    let candidates = switch_candidates(key);
    let slot = switch_slot(candidates, offered);
    assert forall|i: int| 0 <= i < slot.len() implies ((#[trigger] slot[i]) matches Some(k) ==> (
    k as int) < len) by {
        if offered && candidates.len() > 0 {
            assert(candidates == key.modifiers.keys());
            assert((key.modifiers.keys()[i] as int) < len);
        }
    }
}

/// Computes [`spec_lock_targets`].
pub fn lock_targets(layout: &Layout, key: KeyTriple) -> (targets: Vec<(KeyTriple, u64)>)
    requires
        layout.wf(),
        layout.has_keys(key),
    ensures
        targets@ == spec_lock_targets(layout, key),
        forall|i: int|
            0 <= i < targets@.len() ==> layout.has_keys((#[trigger] targets@[i]).0) && 1
                <= targets@[i].1 <= MAX_LOCK_WAYS,
{
    let lk1 = layout.get_layerkey(key.0);
    let lk2 = layout.get_layerkey(key.1);
    let lk3 = layout.get_layerkey(key.2);
    let lock1 = lk1.modifiers.layer_modifier_type().is_lock();
    let lock2 = lk2.modifiers.layer_modifier_type().is_lock();
    let lock3 = lk3.modifiers.layer_modifier_type().is_lock();
    let ghost len = layout.layerkeys@.len() as int;
    let mut targets: Vec<(KeyTriple, u64)> = Vec::new();
    if !lock1 && !lock2 && !lock3 {
        targets.push((key, 1));
        assert(targets@ =~= seq![(key, 1u64)]);
        return targets;
    }
    assert(crate::layout::layerkey_valid(*lk1, len));
    assert(crate::layout::layerkey_valid(*lk2, len));
    assert(crate::layout::layerkey_valid(*lk3, len));
    if lock1 && lk1.layer == lk2.layer && lk2.layer == lk3.layer {
        targets.push(((lk1.base, lk2.base, lk3.base), 1));
        assert(targets@ =~= seq![((lk1.base, lk2.base, lk3.base), 1u64)]);
        return targets;
    }
    let ws1 = is_whitespace(lk1.symbol);
    let ws2 = is_whitespace(lk2.symbol);
    let ws3 = is_whitespace(lk3.symbol);
    let c1 = candidates_of(lk1);
    let c2 = candidates_of(lk2);
    let c3 = candidates_of(lk3);
    let key1 = if c1.len() > 0 {
        lk1.base
    } else {
        key.0
    };
    let key2 = if c2.len() > 0 {
        lk2.base
    } else {
        key.1
    };
    let key3 = if c3.len() > 0 {
        lk3.base
    } else {
        key.2
    };
    let offer_first = !ws1 && !ws2 && lk1.layer != lk2.layer;
    let offer_second = !ws2 && !ws3 && lk2.layer != lk3.layer;
    let after1 = make_slot(c1, offer_first);
    let before2 = make_slot(c2, offer_first);
    let after2 = make_slot(c2, offer_second);
    let before3 = make_slot(c3, offer_second);
    let ghost plan = lock_plan(layout, key);
    proof {
        lemma_slot_below(layout, key.0, offer_first);
        lemma_slot_below(layout, key.1, offer_first);
        lemma_slot_below(layout, key.1, offer_second);
        lemma_slot_below(layout, key.2, offer_second);
        assert(plan.key1 == key1 && plan.key2 == key2 && plan.key3 == key3);
        assert(plan.after1 == after1@ && plan.before2 == before2@);
        assert(plan.after2 == after2@ && plan.before3 == before3@);
    }
    let la: usize = after1.len();
    let lb: usize = before2.len();
    let lc: usize = after2.len();
    let ld: usize = before3.len();
    assert(1 <= la * lb <= 9 && 1 <= la * lb * lc <= 27 && 1 <= la * lb * lc * ld <= 81)
        by (nonlinear_arith)
        requires
            1 <= la <= 3,
            1 <= lb <= 3,
            1 <= lc <= 3,
            1 <= ld <= 3,
    ;
    let ways: usize = la * lb * lc * ld;
    let mut n: usize = 0;
    while n < ways
        invariant
            n <= ways,
            layout.wf(),
            len == layout.layerkeys@.len(),
            plan == lock_plan(layout, key),
            plan.key1 == key1 && plan.key2 == key2 && plan.key3 == key3,
            plan.after1 == after1@ && plan.before2 == before2@,
            plan.after2 == after2@ && plan.before3 == before3@,
            (key1 as int) < len && (key2 as int) < len && (key3 as int) < len,
            slots_below(after1@, len) && slots_below(before2@, len),
            slots_below(after2@, len) && slots_below(before3@, len),
            la == after1@.len() && lb == before2@.len() && lc == after2@.len() && ld
                == before3@.len(),
            1 <= la <= 3 && 1 <= lb <= 3 && 1 <= lc <= 3 && 1 <= ld <= 3,
            ways == la * lb * lc * ld,
            ways == plan.ways(),
            1 <= ways <= 81,
            targets@ == plan.targets_upto(n as int),
            forall|i: int|
                0 <= i < targets@.len() ==> layout.has_keys((#[trigger] targets@[i]).0) && 1
                    <= targets@[i].1 <= MAX_LOCK_WAYS,
        decreases ways - n,
    {
        proof {
            lemma_div_below(n as int, ld as int, la * lb * lc);
            lemma_div_below(n as int / ld as int, lc as int, la * lb);
            lemma_div_below((n as int / ld as int) / lc as int, lb as int, la as int);
        }
        let d: usize = n % ld;
        let n1: usize = n / ld;
        let c: usize = n1 % lc;
        let n2: usize = n1 / lc;
        let b: usize = n2 % lb;
        let a: usize = n2 / lb;
        let mut path: Vec<LayerKeyIndex> = Vec::new();
        let ghost s0 = Seq::<Option<LayerKeyIndex>>::empty();
        let ghost s1 = s0.push(Some(key1));
        let ghost s2 = s1.push(after1@[a as int]);
        let ghost s3 = s2.push(before2@[b as int]);
        let ghost s4 = s3.push(Some(key2));
        let ghost s5 = s4.push(after2@[c as int]);
        let ghost s6 = s5.push(before3@[d as int]);
        let ghost s7 = s6.push(Some(key3));
        push_present(&mut path, Some(key1), Ghost(s0));
        push_present(&mut path, after1[a], Ghost(s1));
        push_present(&mut path, before2[b], Ghost(s2));
        push_present(&mut path, Some(key2), Ghost(s3));
        push_present(&mut path, after2[c], Ghost(s4));
        push_present(&mut path, before3[d], Ghost(s5));
        push_present(&mut path, Some(key3), Ghost(s6));
        proof {
            assert(s7 =~= seq![
                Some(key1),
                after1@[a as int],
                before2@[b as int],
                Some(key2),
                after2@[c as int],
                before3@[d as int],
                Some(key3),
            ]);
            assert(path@ == plan.path(n as int));
            lemma_present_members(s7);
            assert forall|j: int| 0 <= j < path@.len() implies (#[trigger] path@[j] as int)
                < len by {
                let k = choose|k: int| 0 <= k < s7.len() && s7[k] == Some(path@[j]);
                assert(s7[k] == Some(path@[j]));
            }
        }
        let ghost before = targets@;
        extend_windows(&mut targets, &path, ways as u64);
        proof {
            let added = tagged_windows(path@, ways as u64);
            assert forall|i: int| 0 <= i < targets@.len() implies layout.has_keys(
                (#[trigger] targets@[i]).0,
            ) && 1 <= targets@[i].1 <= MAX_LOCK_WAYS by {
                if i >= before.len() {
                    assert(targets@[i] == added[i - before.len()]);
                }
            }
        }
        n += 1;
    }
    targets
}

impl OnDemandTrigramMapper {
    /// Resolves the layer locks of every entry of `trigrams`: the weights of an
    /// entry go to the key triples of [`spec_lock_targets`], divided by the
    /// number of ways, and are gathered by key triple. Entries are taken in
    /// their order.
    pub fn process_lock_layers(&self, trigrams: &TrigramIndices, layout: &Layout) -> (resolved:
        TrigramIndices)
        requires
            trigrams.wf(),
            layout.wf(),
            keys_within(trigrams@, layout),
            splittable(trigrams@),
        ensures
            resolved.wf(),
            resolved@ == accumulate(lock_contributions(layout, trigrams@)),
            keys_within(resolved@, layout),
    {
        let mut resolved = TrigramIndices::new();
        let ghost mut done: Seq<(KeyTriple, Weight)> = Seq::empty();
        let ghost key_ok = |k: KeyTriple| layout.has_keys(k);
        let mut e: usize = 0;
        while e < trigrams.len()
            invariant
                e <= trigrams@.len(),
                resolved.wf(),
                layout.wf(),
                keys_within(trigrams@, layout),
                splittable(trigrams@),
                key_ok == |k: KeyTriple| layout.has_keys(k),
                done == lock_contributions(layout, trigrams@.take(e as int)),
                resolved@ == accumulate(done),
                keys_within(resolved@, layout),
            decreases trigrams@.len() - e,
        {
            let key = trigrams.key_at(e);
            let weights = trigrams.weights_at(e);
            let targets = lock_targets(layout, key);
            let ghost base = done;
            let mut t: usize = 0;
            assert(forall|j: int|
                0 <= j < weights@.len() ==> (#[trigger] trigrams@[e as int].1[j]).paths
                    * MAX_LOCK_WAYS <= u64::MAX);
            assert(done =~= base + share_out(targets@.take(0), weights@));
            while t < targets.len()
                invariant
                    t <= targets@.len(),
                    resolved.wf(),
                    key_ok == |k: KeyTriple| layout.has_keys(k),
                    done == base + share_out(targets@.take(t as int), weights@),
                    resolved@ == accumulate(done),
                    keys_within(resolved@, layout),
                    forall|i: int|
                        0 <= i < targets@.len() ==> layout.has_keys((#[trigger] targets@[i]).0)
                            && 1 <= targets@[i].1 <= MAX_LOCK_WAYS,
                    forall|j: int|
                        0 <= j < weights@.len() ==> (#[trigger] weights@[j]).paths * MAX_LOCK_WAYS
                            <= u64::MAX,
                decreases targets@.len() - t,
            {
                let target = targets[t];
                let ghost row = weights@.map_values(
                    |w: Weight| (target.0, w.spec_split(target.1)),
                );
                let ghost before_row = done;
                let mut j: usize = 0;
                assert(done =~= before_row + row.take(0));
                while j < weights.len()
                    invariant
                        j <= weights@.len(),
                        resolved.wf(),
                        key_ok == |k: KeyTriple| layout.has_keys(k),
                        layout.has_keys(target.0),
                        1 <= target.1 <= MAX_LOCK_WAYS,
                        row == weights@.map_values(|w: Weight| (target.0, w.spec_split(target.1))),
                        done == before_row + row.take(j as int),
                        resolved@ == accumulate(done),
                        keys_within(resolved@, layout),
                        forall|j: int|
                            0 <= j < weights@.len() ==> (#[trigger] weights@[j]).paths
                                * MAX_LOCK_WAYS <= u64::MAX,
                    decreases weights@.len() - j,
                {
                    let w = weights[j];
                    assert(w.paths * target.1 <= u64::MAX) by (nonlinear_arith)
                        requires
                            w.paths * MAX_LOCK_WAYS <= u64::MAX,
                            0 <= target.1 <= MAX_LOCK_WAYS,
                            0 <= w.paths,
                    ;
                    let share = w.split(target.1);
                    let ghost entries_before = resolved@;
                    resolved.insert_or_add_weight(target.0, share);
                    proof {
                        let c = (target.0, share);
                        assert(row[j as int] == c);
                        let next = done.push(c);
                        assert(next.drop_last() =~= done);
                        assert(key_ok(target.0));
                        assert(forall|i: int|
                            0 <= i < entries_before.len() ==> key_ok(
                                (#[trigger] entries_before[i]).0,
                            ));
                        crate::accumulator::lemma_add_weight_keys(
                            entries_before,
                            target.0,
                            share,
                            key_ok,
                        );
                        assert forall|i: int| 0 <= i < resolved@.len() implies layout.has_keys(
                            (#[trigger] resolved@[i]).0,
                        ) by {
                            assert(key_ok(resolved@[i].0));
                        }
                        assert(next =~= before_row + row.take(j as int + 1));
                        done = next;
                    }
                    j += 1;
                }
                proof {
                    assert(row.take(weights@.len() as int) =~= row);
                    assert(targets@.take(t as int + 1).drop_last() =~= targets@.take(t as int));
                    assert(targets@.take(t as int + 1).last() == target);
                    assert(done =~= base + share_out(targets@.take(t as int + 1), weights@));
                }
                t += 1;
            }
            proof {
                assert(targets@.take(targets@.len() as int) =~= targets@);
                assert(trigrams@.take(e as int + 1).drop_last() =~= trigrams@.take(e as int));
                assert(trigrams@.take(e as int + 1).last() == trigrams@[e as int]);
            }
            e += 1;
        }
        assert(trigrams@.take(trigrams@.len() as int) =~= trigrams@);
        resolved
    }
}

/// Every key triple of the first `n` ways of a plan comes with the number of
/// all its ways.
pub proof fn lemma_targets_upto(plan: LockPlan, n: int)
    ensures
        forall|i: int|
            0 <= i < plan.targets_upto(n).len() ==> (#[trigger] plan.targets_upto(n)[i]).1
                == plan.ways() as u64,
    decreases n,
{
    if n > 0 {
        let before = plan.targets_upto(n - 1);
        let added = tagged_windows(plan.path(n - 1), plan.ways() as u64);
        lemma_targets_upto(plan, n - 1);
        assert forall|i: int| 0 <= i < plan.targets_upto(n).len() implies (
        #[trigger] plan.targets_upto(n)[i]).1 == plan.ways() as u64 by {
            if i < before.len() {
                assert(plan.targets_upto(n)[i] == before[i]);
            } else {
                assert(plan.targets_upto(n)[i] == added[i - before.len()]);
            }
        }
    }
}

/// The number of ways of a plan is the product of the numbers of choices at
/// its four places, each between 1 and 3.
pub proof fn lemma_plan_ways(layout: &Layout, key: KeyTriple)
    requires
        layout.wf(),
        layout.has_keys(key),
    ensures
        1 <= lock_plan(layout, key).ways() <= MAX_LOCK_WAYS,
        1 <= lock_plan(layout, key).after1.len() <= 3,
        1 <= lock_plan(layout, key).before2.len() <= 3,
        1 <= lock_plan(layout, key).after2.len() <= 3,
        1 <= lock_plan(layout, key).before3.len() <= 3,
{
    let plan = lock_plan(layout, key);
    let lk1 = layout.layerkeys@[key.0 as int];
    let lk2 = layout.layerkeys@[key.1 as int];
    let lk3 = layout.layerkeys@[key.2 as int];
    lemma_slot_below(layout, key.0, switch_offered(lk1, lk2));
    lemma_slot_below(layout, key.1, switch_offered(lk1, lk2));
    lemma_slot_below(layout, key.1, switch_offered(lk2, lk3));
    lemma_slot_below(layout, key.2, switch_offered(lk2, lk3));
    let la = plan.after1.len();
    let lb = plan.before2.len();
    let lc = plan.after2.len();
    let ld = plan.before3.len();
    assert(1 <= la * lb * lc * ld <= 81) by (nonlinear_arith)
        requires
            1 <= la <= 3,
            1 <= lb <= 3,
            1 <= lc <= 3,
            1 <= ld <= 3,
    ;
}

/// The weight of a key triple is divided by at least 1 and at most
/// [`MAX_LOCK_WAYS`], and by the same number for each of its targets.
pub proof fn lemma_lock_targets_ways(layout: &Layout, key: KeyTriple)
    requires
        layout.wf(),
        layout.has_keys(key),
    ensures
        forall|i: int|
            0 <= i < spec_lock_targets(layout, key).len() ==> 1 <= (#[trigger] spec_lock_targets(
                layout,
                key,
            )[i]).1 <= MAX_LOCK_WAYS,
        forall|i: int, j: int|
            0 <= i < spec_lock_targets(layout, key).len() && 0 <= j < spec_lock_targets(
                layout,
                key,
            ).len() ==> (#[trigger] spec_lock_targets(layout, key)[i]).1 == (
            #[trigger] spec_lock_targets(layout, key)[j]).1,
{
    let plan = lock_plan(layout, key);
    lemma_plan_ways(layout, key);
    lemma_targets_upto(plan, plan.ways() as int);
}

/// The whole weight of a corpus trigram below `bound`, times at most the
/// second power of the penalty factor.
pub open spec fn whole_share(w: Weight, bound: int) -> bool {
    w.source < bound && w.penalty <= 2 && w.paths == 1
}

/// A part of the weight of a corpus trigram below `bound`: that weight, times
/// at most the second power of the penalty factor, divided by at least 1 and
/// at most [`MAX_LOCK_WAYS`].
pub open spec fn traceable(w: Weight, bound: int) -> bool {
    w.source < bound && w.penalty <= 2 && 1 <= w.paths <= MAX_LOCK_WAYS
}

/// Every weight of the entries is a whole share.
pub open spec fn weights_whole(entries: Seq<Entry>, bound: int) -> bool {
    forall|i: int, j: int|
        0 <= i < entries.len() && 0 <= j < entries[i].1.len() ==> whole_share(
            #[trigger] entries[i].1[j],
            bound,
        )
}

/// Every weight of the entries is a part of the weight of a corpus trigram
/// below `bound`: none is made up, and none is larger than the weight it
/// stems from.
pub open spec fn weights_traceable(entries: Seq<Entry>, bound: int) -> bool {
    forall|i: int, j: int|
        0 <= i < entries.len() && 0 <= j < entries[i].1.len() ==> traceable(
            #[trigger] entries[i].1[j],
            bound,
        )
}

/// Whole shares are traceable and can be split.
pub proof fn lemma_whole_weights(entries: Seq<Entry>, bound: int)
    requires
        weights_whole(entries, bound),
    ensures
        weights_traceable(entries, bound),
        splittable(entries),
{
    assert forall|i: int, j: int|
        0 <= i < entries.len() && 0 <= j < entries[i].1.len() implies traceable(
        #[trigger] entries[i].1[j],
        bound,
    ) && entries[i].1[j].paths * MAX_LOCK_WAYS <= u64::MAX by {
        assert(whole_share(entries[i].1[j], bound));
    }
}

/// Splitting a whole share gives a traceable one.
pub proof fn lemma_split_traceable(w: Weight, ways: u64, bound: int)
    requires
        whole_share(w, bound),
        1 <= ways <= MAX_LOCK_WAYS,
    ensures
        traceable(w.spec_split(ways), bound),
        w.spec_split(ways).paths == ways,
        w.spec_split(ways).penalty == w.penalty,
        w.spec_split(ways).source == w.source,
{
    assert(w.paths * ways == ways) by (nonlinear_arith)
        requires
            w.paths == 1,
    ;
}

/// Every contribution of [`share_out`] is traceable where the weights are
/// whole shares and each target divides by between 1 and [`MAX_LOCK_WAYS`].
pub proof fn lemma_share_out(targets: Seq<(KeyTriple, u64)>, weights: Seq<Weight>, bound: int)
    requires
        forall|t: int| 0 <= t < targets.len() ==> 1 <= (#[trigger] targets[t]).1 <= MAX_LOCK_WAYS,
        forall|w: int| 0 <= w < weights.len() ==> whole_share(#[trigger] weights[w], bound),
    ensures
        forall|i: int|
            0 <= i < share_out(targets, weights).len() ==> traceable(
                (#[trigger] share_out(targets, weights)[i]).1,
                bound,
            ),
    decreases targets.len(),
{
    if targets.len() > 0 {
        let before = share_out(targets.drop_last(), weights);
        let last = targets.last();
        let row = weights.map_values(|w: Weight| (last.0, w.spec_split(last.1)));
        assert forall|t: int| 0 <= t < targets.drop_last().len() implies 1 <= (
        #[trigger] targets.drop_last()[t]).1 <= MAX_LOCK_WAYS by {
            assert(targets.drop_last()[t] == targets[t]);
        }
        lemma_share_out(targets.drop_last(), weights, bound);
        assert(1 <= targets[targets.len() - 1].1 <= MAX_LOCK_WAYS);
        assert forall|i: int| 0 <= i < share_out(targets, weights).len() implies traceable(
            (#[trigger] share_out(targets, weights)[i]).1,
            bound,
        ) by {
            if i < before.len() {
                assert(share_out(targets, weights)[i] == before[i]);
            } else {
                let w = i - before.len();
                assert(share_out(targets, weights)[i] == row[w]);
                lemma_split_traceable(weights[w], last.1, bound);
            }
        }
    }
}

/// Every contribution of the lock pass is traceable where the weights of the
/// entries are whole shares: the pass divides weights and makes none up.
pub proof fn lemma_lock_contributions(layout: &Layout, entries: Seq<Entry>, bound: int)
    requires
        layout.wf(),
        keys_within(entries, layout),
        weights_whole(entries, bound),
    ensures
        forall|i: int|
            0 <= i < lock_contributions(layout, entries).len() ==> traceable(
                (#[trigger] lock_contributions(layout, entries)[i]).1,
                bound,
            ),
    decreases entries.len(),
{
    if entries.len() > 0 {
        let last = entries.last();
        let before = lock_contributions(layout, entries.drop_last());
        let targets = spec_lock_targets(layout, last.0);
        let added = share_out(targets, last.1);
        assert(keys_within(entries.drop_last(), layout)) by {
            assert forall|i: int| 0 <= i < entries.drop_last().len() implies layout.has_keys(
                (#[trigger] entries.drop_last()[i]).0,
            ) by {
                assert(entries.drop_last()[i] == entries[i]);
            }
        }
        assert(weights_whole(entries.drop_last(), bound)) by {
            let rest = entries.drop_last();
            assert forall|i: int, j: int|
                0 <= i < rest.len() && 0 <= j < rest[i].1.len() implies whole_share(
                #[trigger] rest[i].1[j],
                bound,
            ) by {
                assert(rest[i] == entries[i]);
                assert(whole_share(entries[i].1[j], bound));
            }
        }
        lemma_lock_contributions(layout, entries.drop_last(), bound);
        assert(layout.has_keys(entries[entries.len() - 1].0));
        lemma_lock_targets_ways(layout, last.0);
        assert forall|w: int| 0 <= w < last.1.len() implies whole_share(
            #[trigger] last.1[w],
            bound,
        ) by {
            assert(whole_share(entries[entries.len() - 1].1[w], bound));
        }
        lemma_share_out(targets, last.1, bound);
        assert forall|i: int| 0 <= i < lock_contributions(layout, entries).len() implies traceable(
            (#[trigger] lock_contributions(layout, entries)[i]).1,
            bound,
        ) by {
            if i < before.len() {
                assert(lock_contributions(layout, entries)[i] == before[i]);
            } else {
                assert(lock_contributions(layout, entries)[i] == added[i - before.len()]);
            }
        }
    }
}

/// What the lock pass gives from whole shares: every weight is a part of the
/// weight of a corpus trigram.
pub proof fn lemma_lock_entries(layout: &Layout, entries: Seq<Entry>, bound: int)
    requires
        layout.wf(),
        keys_within(entries, layout),
        weights_whole(entries, bound),
    ensures
        weights_traceable(accumulate(lock_contributions(layout, entries)), bound),
{
    let contributions = lock_contributions(layout, entries);
    let any_key = |k: KeyTriple| true;
    let is_part = |w: Weight| traceable(w, bound);
    lemma_lock_contributions(layout, entries, bound);
    assert(crate::accumulator::contributions_all(contributions, any_key, is_part)) by {
        assert forall|i: int| 0 <= i < contributions.len() implies any_key(
            (#[trigger] contributions[i]).0,
        ) && is_part(contributions[i].1) by {
            assert(traceable(contributions[i].1, bound));
        }
    }
    crate::accumulator::lemma_add_all_keeps(Seq::empty(), contributions, any_key, is_part);
    let resolved = accumulate(contributions);
    assert forall|i: int, j: int|
        0 <= i < resolved.len() && 0 <= j < resolved[i].1.len() implies traceable(
        #[trigger] resolved[i].1[j],
        bound,
    ) by {
        assert(is_part(resolved[i].1[j]));
    }
}

} // verus!
