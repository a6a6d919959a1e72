//! Resolving held modifiers: a symbol that needs held modifiers takes one, two
//! or three of the three places of a key trigram, with its modifiers before
//! its base key, and the symbols keep their order.

use crate::accumulator::{accumulate, TrigramIndices, Weight};
use crate::common::{
    from_keys, lemma_div_below, pairs_as_slice, singles_as_slice, take_one, take_one_layerkey,
    take_three, take_three_layerkey, take_two, take_two_layerkey, triple_from_keys,
    triples_as_slice, Pair, Single, Triple,
};
use crate::layout::{layerkey_valid, KeyTriple, LayerKeyIndex, LayerModifiers, Layout};
use crate::lock_layers::{
    keys_within, lemma_whole_weights, splittable, weights_whole, whole_share,
};
use crate::trigram_mapper::OnDemandTrigramMapper;
use vstd::prelude::*;

verus! {

/// The key that is pressed for `idx`: the base key of a held key, and the key
/// itself otherwise.
pub open spec fn pressed_key(layout: &Layout, idx: LayerKeyIndex) -> LayerKeyIndex {
    match layout.spec_modifiers(idx) {
        LayerModifiers::Hold(_) => layout.spec_base(idx),
        _ => idx,
    }
}

/// The modifiers that are held for `idx`; none for a key that is not held.
pub open spec fn held_modifiers(layout: &Layout, idx: LayerKeyIndex) -> Seq<LayerKeyIndex> {
    match layout.spec_modifiers(idx) {
        LayerModifiers::Hold(mods) => mods@,
        _ => Seq::empty(),
    }
}

/// No key is pressed twice in a row: such a triple stands for a key that is
/// held, not for two presses.
pub open spec fn no_repeat(t: KeyTriple) -> bool {
    t.0 != t.1 && t.1 != t.2
}

/// One key of each of three symbols, the last symbol turning fastest.
pub open spec fn one_each(one1: Seq<Single>, one2: Seq<Single>, one3: Seq<Single>) -> Seq<Triple> {
    Seq::new(
        one1.len() * one2.len() * one3.len(),
        |n: int|
            {
                let k = n % (one3.len() as int);
                let n1 = n / (one3.len() as int);
                let j = n1 % (one2.len() as int);
                let i = n1 / (one2.len() as int);
                ((one1[i].0, one2[j].0, one3[k].0), 0u8)
            },
    )
}

/// Two keys of one symbol, then one key of the next; the second symbol turns
/// fastest.
pub open spec fn two_then_one(two: Seq<Pair>, one: Seq<Single>) -> Seq<Triple> {
    Seq::new(
        two.len() * one.len(),
        |n: int|
            {
                let i = n / (one.len() as int);
                let j = n % (one.len() as int);
                ((two[i].0.0, two[i].0.1, one[j].0), two[i].1)
            },
    )
}

/// One key of one symbol, then two keys of the next; the second symbol turns
/// fastest.
pub open spec fn one_then_two(one: Seq<Single>, two: Seq<Pair>) -> Seq<Triple> {
    Seq::new(
        one.len() * two.len(),
        |n: int|
            {
                let i = n / (two.len() as int);
                let j = n % (two.len() as int);
                ((one[i].0, two[j].0.0, two[j].0.1), two[j].1)
            },
    )
}

/// Every key triple that may have been pressed for the trigram `key`, with its
/// penalty power: one key of each symbol; two of the first and one of the
/// second; one of the first and two of the second; the same for the second and
/// third symbol; and three keys of the first, of the second, or of the third.
pub open spec fn hold_candidates(layout: &Layout, key: KeyTriple) -> Seq<Triple> {
    let b1 = pressed_key(layout, key.0);
    let b2 = pressed_key(layout, key.1);
    let b3 = pressed_key(layout, key.2);
    let m1 = held_modifiers(layout, key.0);
    let m2 = held_modifiers(layout, key.1);
    let m3 = held_modifiers(layout, key.2);
    one_each(take_one(b1, m1), take_one(b2, m2), take_one(b3, m3)) + two_then_one(
        take_two(b1, m1),
        take_one(b2, m2),
    ) + one_then_two(take_one(b1, m1), take_two(b2, m2)) + two_then_one(
        take_two(b2, m2),
        take_one(b3, m3),
    ) + one_then_two(take_one(b2, m2), take_two(b3, m3)) + take_three(b1, m1) + take_three(b2, m2)
        + take_three(b3, m3)
}

/// The contributions of the candidates: each one without a repeated key
/// contributes the weight of the trigram at `source`, with its penalty power.
pub open spec fn kept(candidates: Seq<Triple>, source: usize) -> Seq<(KeyTriple, Weight)>
    decreases candidates.len(),
{
    if candidates.len() == 0 {
        Seq::empty()
    } else {
        let c = candidates.last();
        let before = kept(candidates.drop_last(), source);
        if no_repeat(c.0) {
            before.push((c.0, Weight { source, penalty: c.1, paths: 1 }))
        } else {
            before
        }
    }
}

/// The contributions of all trigrams, in their order.
pub open spec fn hold_contributions(layout: &Layout, trigrams: Seq<(KeyTriple, usize)>) -> Seq<
    (KeyTriple, Weight),
>
    decreases trigrams.len(),
{
    if trigrams.len() == 0 {
        Seq::empty()
    } else {
        let t = trigrams.last();
        hold_contributions(layout, trigrams.drop_last()) + kept(hold_candidates(layout, t.0), t.1)
    }
}

/// Every key triple of the trigrams is made of keys of the layout.
pub open spec fn trigrams_within(trigrams: Seq<(KeyTriple, usize)>, layout: &Layout) -> bool {
    forall|i: int| 0 <= i < trigrams.len() ==> layout.has_keys((#[trigger] trigrams[i]).0)
}

/// The state of the pass while the candidates of one trigram are added:
/// `before` is what the earlier trigrams contributed and `seen` the
/// candidates of this trigram that have been looked at.
pub open spec fn adding(
    resolved: &TrigramIndices,
    layout: &Layout,
    before: Seq<(KeyTriple, Weight)>,
    seen: Seq<Triple>,
    source: usize,
) -> bool {
    &&& resolved.wf()
    &&& resolved@ == accumulate(before + kept(seen, source))
    &&& keys_within(resolved@, layout)
}

fn add_candidate(
    resolved: &mut TrigramIndices,
    layout: &Layout,
    candidate: Triple,
    source: usize,
    Ghost(before): Ghost<Seq<(KeyTriple, Weight)>>,
    Ghost(seen): Ghost<Seq<Triple>>,
)
    requires
        adding(old(resolved), layout, before, seen, source),
        layout.has_keys(candidate.0),
    ensures
        adding(final(resolved), layout, before, seen.push(candidate), source),
{
    let t = candidate.0;
    assert(seen.push(candidate).drop_last() =~= seen);
    if t.0 != t.1 && t.1 != t.2 {
        let weight = Weight { source, penalty: candidate.1, paths: 1 };
        let ghost entries = resolved@;
        let ghost key_ok = |k: KeyTriple| layout.has_keys(k);
        resolved.insert_or_add_weight(t, weight);
        proof {
            let so_far = before + kept(seen, source);
            assert(so_far.push((t, weight)).drop_last() =~= so_far);
            assert(so_far.push((t, weight)) =~= before + kept(seen.push(candidate), source));
            assert(key_ok(t));
            assert(forall|i: int| 0 <= i < entries.len() ==> key_ok((#[trigger] entries[i]).0));
            crate::accumulator::lemma_add_weight_keys(entries, t, weight, key_ok);
            assert forall|i: int| 0 <= i < resolved@.len() implies layout.has_keys(
                (#[trigger] resolved@[i]).0,
            ) by {
                assert(key_ok(resolved@[i].0));
            }
        }
    }
}

/// Every key of the singles is a key of the layout.
pub open spec fn singles_within(one: Seq<Single>, layout: &Layout) -> bool {
    forall|i: int| 0 <= i < one.len() ==> layout.has_key((#[trigger] one[i]).0)
}

/// Every key of the pairs is a key of the layout.
pub open spec fn pairs_within(two: Seq<Pair>, layout: &Layout) -> bool {
    forall|i: int|
        0 <= i < two.len() ==> layout.has_key((#[trigger] two[i]).0.0) && layout.has_key(
            two[i].0.1,
        )
}

/// Every key of the triples is a key of the layout.
pub open spec fn triples_within(three: Seq<Triple>, layout: &Layout) -> bool {
    forall|i: int| 0 <= i < three.len() ==> layout.has_keys((#[trigger] three[i]).0)
}

fn add_one_each(
    resolved: &mut TrigramIndices,
    layout: &Layout,
    one1: &[Single],
    one2: &[Single],
    one3: &[Single],
    source: usize,
    Ghost(before): Ghost<Seq<(KeyTriple, Weight)>>,
    Ghost(seen): Ghost<Seq<Triple>>,
)
    requires
        adding(old(resolved), layout, before, seen, source),
        singles_within(one1@, layout),
        singles_within(one2@, layout),
        singles_within(one3@, layout),
        1 <= one1@.len() <= 4,
        1 <= one2@.len() <= 4,
        1 <= one3@.len() <= 4,
    ensures
        adding(final(resolved), layout, before, seen + one_each(one1@, one2@, one3@), source),
{
    let l1: usize = one1.len();
    let l2: usize = one2.len();
    let l3: usize = one3.len();
    assert(1 <= l1 * l2 <= 16 && 1 <= l1 * l2 * l3 <= 64) by (nonlinear_arith)
        requires
            1 <= l1 <= 4,
            1 <= l2 <= 4,
            1 <= l3 <= 4,
    ;
    let count: usize = l1 * l2 * l3;
    let ghost block = one_each(one1@, one2@, one3@);
    let mut n: usize = 0;
    assert(seen =~= seen + block.take(0));
    while n < count
        invariant
            n <= count,
            count == l1 * l2 * l3,
            l1 == one1@.len() && l2 == one2@.len() && l3 == one3@.len(),
            1 <= l1 <= 4 && 1 <= l2 <= 4 && 1 <= l3 <= 4,
            block == one_each(one1@, one2@, one3@),
            block.len() == count,
            singles_within(one1@, layout),
            singles_within(one2@, layout),
            singles_within(one3@, layout),
            adding(resolved, layout, before, seen + block.take(n as int), source),
        decreases count - n,
    {
        proof {
            lemma_div_below(n as int, l3 as int, l1 * l2);
            lemma_div_below(n as int / l3 as int, l2 as int, l1 as int);
        }
        let k: usize = n % l3;
        let n1: usize = n / l3;
        let j: usize = n1 % l2;
        let i: usize = n1 / l2;
        let candidate: Triple = ((one1[i].0, one2[j].0, one3[k].0), 0u8);
        assert(candidate == block[n as int]);
        add_candidate(
            resolved,
            layout,
            candidate,
            source,
            Ghost(before),
            Ghost(seen + block.take(n as int)),
        );
        assert((seen + block.take(n as int)).push(candidate) =~= seen + block.take(n as int + 1));
        n += 1;
    }
    assert(block.take(count as int) =~= block);
}

fn add_two_then_one(
    resolved: &mut TrigramIndices,
    layout: &Layout,
    two: &[Pair],
    one: &[Single],
    source: usize,
    Ghost(before): Ghost<Seq<(KeyTriple, Weight)>>,
    Ghost(seen): Ghost<Seq<Triple>>,
)
    requires
        adding(old(resolved), layout, before, seen, source),
        pairs_within(two@, layout),
        singles_within(one@, layout),
        two@.len() <= 9,
        1 <= one@.len() <= 4,
    ensures
        adding(final(resolved), layout, before, seen + two_then_one(two@, one@), source),
{
    let l2: usize = two.len();
    let l1: usize = one.len();
    assert(0 <= l2 * l1 <= 36) by (nonlinear_arith)
        requires
            0 <= l2 <= 9,
            1 <= l1 <= 4,
    ;
    let count: usize = l2 * l1;
    let ghost block = two_then_one(two@, one@);
    let mut n: usize = 0;
    assert(seen =~= seen + block.take(0));
    while n < count
        invariant
            n <= count,
            count == l2 * l1,
            l2 == two@.len() && l1 == one@.len(),
            1 <= l1 <= 4,
            block == two_then_one(two@, one@),
            block.len() == count,
            pairs_within(two@, layout),
            singles_within(one@, layout),
            adding(resolved, layout, before, seen + block.take(n as int), source),
        decreases count - n,
    {
        proof {
            lemma_div_below(n as int, l1 as int, l2 as int);
        }
        let i: usize = n / l1;
        let j: usize = n % l1;
        let candidate: Triple = ((two[i].0.0, two[i].0.1, one[j].0), two[i].1);
        assert(candidate == block[n as int]);
        add_candidate(
            resolved,
            layout,
            candidate,
            source,
            Ghost(before),
            Ghost(seen + block.take(n as int)),
        );
        assert((seen + block.take(n as int)).push(candidate) =~= seen + block.take(n as int + 1));
        n += 1;
    }
    assert(block.take(count as int) =~= block);
}

fn add_one_then_two(
    resolved: &mut TrigramIndices,
    layout: &Layout,
    one: &[Single],
    two: &[Pair],
    source: usize,
    Ghost(before): Ghost<Seq<(KeyTriple, Weight)>>,
    Ghost(seen): Ghost<Seq<Triple>>,
)
    requires
        adding(old(resolved), layout, before, seen, source),
        singles_within(one@, layout),
        pairs_within(two@, layout),
        1 <= one@.len() <= 4,
        two@.len() <= 9,
    ensures
        adding(final(resolved), layout, before, seen + one_then_two(one@, two@), source),
{
    let l1: usize = one.len();
    let l2: usize = two.len();
    assert(0 <= l1 * l2 <= 36) by (nonlinear_arith)
        requires
            0 <= l2 <= 9,
            1 <= l1 <= 4,
    ;
    let count: usize = l1 * l2;
    let ghost block = one_then_two(one@, two@);
    let mut n: usize = 0;
    assert(seen =~= seen + block.take(0));
    while n < count
        invariant
            n <= count,
            count == l1 * l2,
            l2 == two@.len() && l1 == one@.len(),
            block == one_then_two(one@, two@),
            block.len() == count,
            pairs_within(two@, layout),
            singles_within(one@, layout),
            adding(resolved, layout, before, seen + block.take(n as int), source),
        decreases count - n,
    {
        proof {
            assert(l2 > 0) by (nonlinear_arith)
                requires
                    0 <= n < l1 * l2,
            ;
            lemma_div_below(n as int, l2 as int, l1 as int);
        }
        let i: usize = n / l2;
        let j: usize = n % l2;
        let candidate: Triple = ((one[i].0, two[j].0.0, two[j].0.1), two[j].1);
        assert(candidate == block[n as int]);
        add_candidate(
            resolved,
            layout,
            candidate,
            source,
            Ghost(before),
            Ghost(seen + block.take(n as int)),
        );
        assert((seen + block.take(n as int)).push(candidate) =~= seen + block.take(n as int + 1));
        n += 1;
    }
    assert(block.take(count as int) =~= block);
}

fn add_three(
    resolved: &mut TrigramIndices,
    layout: &Layout,
    three: &[Triple],
    source: usize,
    Ghost(before): Ghost<Seq<(KeyTriple, Weight)>>,
    Ghost(seen): Ghost<Seq<Triple>>,
)
    requires
        adding(old(resolved), layout, before, seen, source),
        triples_within(three@, layout),
    ensures
        adding(final(resolved), layout, before, seen + three@, source),
{
    let mut n: usize = 0;
    assert(seen =~= seen + three@.take(0));
    while n < three.len()
        invariant
            n <= three@.len(),
            triples_within(three@, layout),
            adding(resolved, layout, before, seen + three@.take(n as int), source),
        decreases three@.len() - n,
    {
        let candidate: Triple = three[n];
        add_candidate(
            resolved,
            layout,
            candidate,
            source,
            Ghost(before),
            Ghost(seen + three@.take(n as int)),
        );
        assert((seen + three@.take(n as int)).push(candidate) =~= seen + three@.take(
            n as int + 1,
        ));
        n += 1;
    }
    assert(three@.take(three@.len() as int) =~= three@);
}

/// The key pressed for `idx` and the modifiers held with it.
fn resolve_held(layout: &Layout, idx: LayerKeyIndex) -> (r: (LayerKeyIndex, &[LayerKeyIndex]))
    requires
        layout.wf(),
        layout.has_key(idx),
    ensures
        r.0 == pressed_key(layout, idx),
        r.1@ == held_modifiers(layout, idx),
        layout.has_key(r.0),
        r.1@.len() <= 3,
        forall|k: LayerKeyIndex| from_keys(k, r.0, r.1@) ==> layout.has_key(k),
{
    let (base, modifiers) = layout.resolve_modifiers(idx);
    let r: (LayerKeyIndex, &[LayerKeyIndex]) = match modifiers {
        LayerModifiers::Hold(mods) => (base, mods.as_slice()),
        _ => (idx, &[]),
    };
    proof {
        let len = layout.layerkeys@.len() as int;
        assert(layerkey_valid(layout.layerkeys@[idx as int], len));
        assert forall|k: LayerKeyIndex| from_keys(k, r.0, r.1@) implies layout.has_key(k) by {
            if k != r.0 {
                let j = choose|j: int| 0 <= j < r.1@.len() && r.1@[j] == k;
                assert(layout.layerkeys@[idx as int].modifiers.keys()[j] == k);
            }
        }
    }
    r
}

impl OnDemandTrigramMapper {
    /// Resolves the held modifiers of every trigram: each candidate of
    /// [`hold_candidates`] without a repeated key contributes the weight of the
    /// trigram, with its penalty power, and the contributions are gathered by
    /// key triple. Trigrams are taken in their order.
    pub fn process_hold_layers(
        &self,
        trigrams: &Vec<(KeyTriple, usize)>,
        layout: &Layout,
    ) -> (resolved: TrigramIndices)
        requires
            layout.wf(),
            trigrams_within(trigrams@, layout),
        ensures
            resolved.wf(),
            resolved@ == accumulate(hold_contributions(layout, trigrams@)),
            keys_within(resolved@, layout),
            forall|i: int| 0 <= i < resolved@.len() ==> no_repeat((#[trigger] resolved@[i]).0),
            forall|i: int, j: int|
                0 <= i < resolved@.len() && 0 <= j < resolved@[i].1.len() ==> (
                #[trigger] resolved@[i].1[j]).paths == 1 && resolved@[i].1[j].penalty <= 2,
            splittable(resolved@),
    {
        proof {
            let bound = usize::MAX as int + 1;
            let entries = accumulate(hold_contributions(layout, trigrams@));
            lemma_hold_entries(layout, trigrams@, bound);
            lemma_whole_weights(entries, bound);
            assert forall|i: int, j: int|
                0 <= i < entries.len() && 0 <= j < entries[i].1.len() implies (
            #[trigger] entries[i].1[j]).paths == 1 && entries[i].1[j].penalty <= 2 by {
                assert(whole_share(entries[i].1[j], bound));
            }
        }
        let mut resolved = TrigramIndices::new();
        let mut e: usize = 0;
        assert(hold_contributions(layout, trigrams@.take(0)) =~= Seq::empty());
        while e < trigrams.len()
            invariant
                e <= trigrams@.len(),
                layout.wf(),
                trigrams_within(trigrams@, layout),
                resolved.wf(),
                resolved@ == accumulate(hold_contributions(layout, trigrams@.take(e as int))),
                keys_within(resolved@, layout),
            decreases trigrams@.len() - e,
        {
            let key = trigrams[e].0;
            let source = trigrams[e].1;
            assert(layout.has_keys(trigrams@[e as int].0));
            let (key1, mods1) = resolve_held(layout, key.0);
            let (key2, mods2) = resolve_held(layout, key.1);
            let (key3, mods3) = resolve_held(layout, key.2);
            let one1 = take_one_layerkey(key1, mods1);
            let one2 = take_one_layerkey(key2, mods2);
            let one3 = take_one_layerkey(key3, mods3);
            let two1 = take_two_layerkey(key1, mods1);
            let two2 = take_two_layerkey(key2, mods2);
            let two3 = take_two_layerkey(key3, mods3);
            let three1 = take_three_layerkey(key1, mods1);
            let three2 = take_three_layerkey(key2, mods2);
            let three3 = take_three_layerkey(key3, mods3);
            let s1 = singles_as_slice(&one1);
            let s2 = singles_as_slice(&one2);
            let s3 = singles_as_slice(&one3);
            let p1 = pairs_as_slice(&two1);
            let p2 = pairs_as_slice(&two2);
            let p3 = pairs_as_slice(&two3);
            let t1 = triples_as_slice(&three1);
            let t2 = triples_as_slice(&three2);
            let t3 = triples_as_slice(&three3);
            let ghost before = hold_contributions(layout, trigrams@.take(e as int));
            let ghost c0 = Seq::<Triple>::empty();
            let ghost c1 = c0 + one_each(s1@, s2@, s3@);
            let ghost c2 = c1 + two_then_one(p1@, s2@);
            let ghost c3 = c2 + one_then_two(s1@, p2@);
            let ghost c4 = c3 + two_then_one(p2@, s3@);
            let ghost c5 = c4 + one_then_two(s2@, p3@);
            let ghost c6 = c5 + t1@;
            let ghost c7 = c6 + t2@;
            let ghost c8 = c7 + t3@;
            proof {
                assert(before + kept(c0, source) =~= before);
                assert(triples_within(t1@, layout)) by {
                    assert forall|i: int| 0 <= i < t1@.len() implies layout.has_keys(
                        (#[trigger] t1@[i]).0,
                    ) by {
                        assert(triple_from_keys(t1@[i].0, key1, mods1@));
                    }
                }
                assert(triples_within(t2@, layout)) by {
                    assert forall|i: int| 0 <= i < t2@.len() implies layout.has_keys(
                        (#[trigger] t2@[i]).0,
                    ) by {
                        assert(triple_from_keys(t2@[i].0, key2, mods2@));
                    }
                }
                assert(triples_within(t3@, layout)) by {
                    assert forall|i: int| 0 <= i < t3@.len() implies layout.has_keys(
                        (#[trigger] t3@[i]).0,
                    ) by {
                        assert(triple_from_keys(t3@[i].0, key3, mods3@));
                    }
                }
            }
            add_one_each(&mut resolved, layout, s1, s2, s3, source, Ghost(before), Ghost(c0));
            add_two_then_one(&mut resolved, layout, p1, s2, source, Ghost(before), Ghost(c1));
            add_one_then_two(&mut resolved, layout, s1, p2, source, Ghost(before), Ghost(c2));
            add_two_then_one(&mut resolved, layout, p2, s3, source, Ghost(before), Ghost(c3));
            add_one_then_two(&mut resolved, layout, s2, p3, source, Ghost(before), Ghost(c4));
            add_three(&mut resolved, layout, t1, source, Ghost(before), Ghost(c5));
            add_three(&mut resolved, layout, t2, source, Ghost(before), Ghost(c6));
            add_three(&mut resolved, layout, t3, source, Ghost(before), Ghost(c7));
            proof {
                assert(c8 =~= hold_candidates(layout, key));
                assert(trigrams@.take(e as int + 1).drop_last() =~= trigrams@.take(e as int));
                assert(trigrams@.take(e as int + 1).last() == trigrams@[e as int]);
            }
            e += 1;
        }
        assert(trigrams@.take(trigrams@.len() as int) =~= trigrams@);
        resolved
    }
}

/// Every candidate has a penalty power of at most `most`.
pub open spec fn penalties_upto(candidates: Seq<Triple>, most: u8) -> bool {
    forall|i: int| 0 <= i < candidates.len() ==> (#[trigger] candidates[i]).1 <= most
}

proof fn lemma_two_then_one_penalty(two: Seq<Pair>, one: Seq<Single>)
    requires
        forall|x: int| 0 <= x < two.len() ==> (#[trigger] two[x]).1 <= 1,
    ensures
        penalties_upto(two_then_one(two, one), 1),
{
    let block = two_then_one(two, one);
    assert forall|n: int| 0 <= n < block.len() implies (#[trigger] block[n]).1 <= 1 by {
        assert(one.len() > 0) by (nonlinear_arith)
            requires
                0 <= n < two.len() * one.len(),
        ;
        lemma_div_below(n, one.len() as int, two.len() as int);
        assert(two[n / (one.len() as int)].1 <= 1);
    }
}

proof fn lemma_one_then_two_penalty(one: Seq<Single>, two: Seq<Pair>)
    requires
        forall|x: int| 0 <= x < two.len() ==> (#[trigger] two[x]).1 <= 1,
    ensures
        penalties_upto(one_then_two(one, two), 1),
{
    let block = one_then_two(one, two);
    assert forall|n: int| 0 <= n < block.len() implies (#[trigger] block[n]).1 <= 1 by {
        assert(two.len() > 0) by (nonlinear_arith)
            requires
                0 <= n < one.len() * two.len(),
        ;
        lemma_div_below(n, two.len() as int, one.len() as int);
        assert(two[n % (two.len() as int)].1 <= 1);
    }
}

/// No candidate of the hold pass has a penalty power above 2.
pub proof fn lemma_hold_candidates_penalty(layout: &Layout, key: KeyTriple)
    ensures
        penalties_upto(hold_candidates(layout, key), 2),
{
    let b1 = pressed_key(layout, key.0);
    let b2 = pressed_key(layout, key.1);
    let b3 = pressed_key(layout, key.2);
    let m1 = held_modifiers(layout, key.0);
    let m2 = held_modifiers(layout, key.1);
    let m3 = held_modifiers(layout, key.2);
    crate::common::lemma_take_two_penalty(b1, m1, m1.len() as int);
    crate::common::lemma_take_two_penalty(b2, m2, m2.len() as int);
    crate::common::lemma_take_two_penalty(b3, m3, m3.len() as int);
    crate::common::lemma_take_three_penalty(b1, m1, m1.len() as int);
    crate::common::lemma_take_three_penalty(b2, m2, m2.len() as int);
    crate::common::lemma_take_three_penalty(b3, m3, m3.len() as int);
    let a = one_each(take_one(b1, m1), take_one(b2, m2), take_one(b3, m3));
    let b = two_then_one(take_two(b1, m1), take_one(b2, m2));
    let c = one_then_two(take_one(b1, m1), take_two(b2, m2));
    let d = two_then_one(take_two(b2, m2), take_one(b3, m3));
    let e = one_then_two(take_one(b2, m2), take_two(b3, m3));
    let f = take_three(b1, m1);
    let g = take_three(b2, m2);
    let h = take_three(b3, m3);
    lemma_two_then_one_penalty(take_two(b1, m1), take_one(b2, m2));
    lemma_one_then_two_penalty(take_one(b1, m1), take_two(b2, m2));
    lemma_two_then_one_penalty(take_two(b2, m2), take_one(b3, m3));
    lemma_one_then_two_penalty(take_one(b2, m2), take_two(b3, m3));
    assert(penalties_upto(a, 2));
    assert(penalties_upto(a + b, 2));
    assert(penalties_upto(a + b + c, 2));
    assert(penalties_upto(a + b + c + d, 2));
    assert(penalties_upto(a + b + c + d + e, 2));
    assert(penalties_upto(a + b + c + d + e + f, 2));
    assert(penalties_upto(a + b + c + d + e + f + g, 2));
    assert(penalties_upto(a + b + c + d + e + f + g + h, 2));
}

/// What holds of every contribution of the hold pass: its key triple has no
/// repeated key, and its weight is the whole weight of a trigram below
/// `bound`, times at most the second power of the penalty factor.
pub open spec fn held_share(c: (KeyTriple, Weight), bound: int) -> bool {
    no_repeat(c.0) && c.1.source < bound && c.1.penalty <= 2 && c.1.paths == 1
}

/// [`held_share`] holds of every contribution of [`kept`].
pub proof fn lemma_kept(candidates: Seq<Triple>, source: usize, bound: int)
    requires
        source < bound,
        penalties_upto(candidates, 2),
    ensures
        forall|i: int|
            0 <= i < kept(candidates, source).len() ==> held_share(
                #[trigger] kept(candidates, source)[i],
                bound,
            ),
    decreases candidates.len(),
{
    if candidates.len() > 0 {
        let before = kept(candidates.drop_last(), source);
        assert(penalties_upto(candidates.drop_last(), 2)) by {
            assert forall|i: int| 0 <= i < candidates.drop_last().len() implies (
            #[trigger] candidates.drop_last()[i]).1 <= 2 by {
                assert(candidates.drop_last()[i] == candidates[i]);
            }
        }
        lemma_kept(candidates.drop_last(), source, bound);
        assert(candidates[candidates.len() - 1].1 <= 2);
        assert forall|i: int| 0 <= i < kept(candidates, source).len() implies held_share(
            #[trigger] kept(candidates, source)[i],
            bound,
        ) by {
            if i < before.len() {
                assert(kept(candidates, source)[i] == before[i]);
            }
        }
    }
}

/// [`held_share`] holds of every contribution of the hold pass.
pub proof fn lemma_hold_contributions(
    layout: &Layout,
    trigrams: Seq<(KeyTriple, usize)>,
    bound: int,
)
    requires
        forall|i: int| 0 <= i < trigrams.len() ==> (#[trigger] trigrams[i]).1 < bound,
    ensures
        forall|i: int|
            0 <= i < hold_contributions(layout, trigrams).len() ==> held_share(
                #[trigger] hold_contributions(layout, trigrams)[i],
                bound,
            ),
    decreases trigrams.len(),
{
    if trigrams.len() > 0 {
        let t = trigrams.last();
        let before = hold_contributions(layout, trigrams.drop_last());
        let added = kept(hold_candidates(layout, t.0), t.1);
        assert forall|i: int| 0 <= i < trigrams.drop_last().len() implies (
        #[trigger] trigrams.drop_last()[i]).1 < bound by {
            assert(trigrams.drop_last()[i] == trigrams[i]);
        }
        lemma_hold_contributions(layout, trigrams.drop_last(), bound);
        assert(trigrams[trigrams.len() - 1].1 < bound);
        lemma_hold_candidates_penalty(layout, t.0);
        lemma_kept(hold_candidates(layout, t.0), t.1, bound);
        assert forall|i: int|
            0 <= i < hold_contributions(layout, trigrams).len() implies held_share(
            #[trigger] hold_contributions(layout, trigrams)[i],
            bound,
        ) by {
            if i < before.len() {
                assert(hold_contributions(layout, trigrams)[i] == before[i]);
            } else {
                assert(hold_contributions(layout, trigrams)[i] == added[i - before.len()]);
            }
        }
    }
}

/// What the hold pass gives: no key triple has the same key twice in a row,
/// and every weight is the whole weight of one of the trigrams, times at most
/// the second power of the penalty factor.
pub proof fn lemma_hold_entries(layout: &Layout, trigrams: Seq<(KeyTriple, usize)>, bound: int)
    requires
        forall|i: int| 0 <= i < trigrams.len() ==> (#[trigger] trigrams[i]).1 < bound,
    ensures
        forall|i: int|
            0 <= i < accumulate(hold_contributions(layout, trigrams)).len() ==> no_repeat(
                (#[trigger] accumulate(hold_contributions(layout, trigrams))[i]).0,
            ),
        weights_whole(accumulate(hold_contributions(layout, trigrams)), bound),
{
    let contributions = hold_contributions(layout, trigrams);
    let key_ok = |k: KeyTriple| no_repeat(k);
    let weight_ok = |w: Weight| whole_share(w, bound);
    lemma_hold_contributions(layout, trigrams, bound);
    assert(crate::accumulator::contributions_all(contributions, key_ok, weight_ok)) by {
        assert forall|i: int| 0 <= i < contributions.len() implies key_ok(
            (#[trigger] contributions[i]).0,
        ) && weight_ok(contributions[i].1) by {
            assert(held_share(contributions[i], bound));
        }
    }
    crate::accumulator::lemma_add_all_keeps(Seq::empty(), contributions, key_ok, weight_ok);
    let entries = accumulate(contributions);
    assert forall|i: int| 0 <= i < entries.len() implies no_repeat((#[trigger] entries[i]).0) by {
        assert(key_ok(entries[i].0));
    }
    assert forall|i: int, j: int|
        0 <= i < entries.len() && 0 <= j < entries[i].1.len() implies whole_share(
        #[trigger] entries[i].1[j],
        bound,
    ) by {
        assert(weight_ok(entries[i].1[j]));
    }
}

} // verus!
