//! What holds of the mapper on every layout and every corpus.

use crate::accumulator::{
    accumulate, add_all, contributions_all, entries_nonempty, keys_distinct,
    lemma_accumulate_gathers, lemma_add_all_concat, lemma_add_all_keeps, lemma_add_all_nonempty,
    lemma_position, position, Entry, Weight,
};
use crate::common::{take_one, take_three, take_two, Triple};
use crate::hold_layers::{
    hold_candidates, hold_contributions, kept, lemma_hold_entries, no_repeat, one_each,
    one_then_two, trigrams_within, two_then_one,
};
use crate::layout::{
    char_is_whitespace, has_layer_kind, symbol_index, KeyTriple, LayerKeyIndex, LayerModifierType,
    Layout,
};
use crate::lock_layers::{
    keys_within, lemma_targets_upto, lock_contributions, lock_plan, on_lock_layer, share_out,
    spec_lock_targets,
};
use crate::one_shot_layers::{
    mapped_trigrams, not_found, one_shot_keys, one_shot_resolved, one_shot_stream, translated,
};
use crate::trigram_mapper::{whole_contributions, OnDemandTrigramMapper};
use crate::windows::{present, tagged_windows};
use vstd::prelude::*;

verus! {

/// On a layout that has every character of the corpus, no weight is lost.
pub proof fn lemma_full_coverage(
    layout: &Layout,
    grams: Seq<(char, char, char)>,
    exclude_line_breaks: bool,
)
    requires
        forall|i: int| 0 <= i < grams.len() ==> translated(layout, #[trigger] grams[i]).is_some(),
    ensures
        not_found(layout, grams, exclude_line_breaks) == Seq::<usize>::empty(),
    decreases grams.len(),
{
    if grams.len() > 0 {
        assert forall|i: int| 0 <= i < grams.drop_last().len() implies translated(
            layout,
            #[trigger] grams.drop_last()[i],
        ).is_some() by {
            assert(grams.drop_last()[i] == grams[i]);
        }
        lemma_full_coverage(layout, grams.drop_last(), exclude_line_breaks);
        assert(translated(layout, grams[grams.len() - 1]).is_some());
    }
}

/// A trigram of three one-shot keys with one modifier each is six presses,
/// and gives four key trigrams, each with the whole weight of the trigram.
pub proof fn lemma_one_shot_windows(layout: &Layout, key: KeyTriple, source: usize)
    requires
        layout.spec_modifiers(key.0) is OneShot,
        layout.spec_modifiers(key.1) is OneShot,
        layout.spec_modifiers(key.2) is OneShot,
        layout.spec_modifiers(key.0).keys().len() == 1,
        layout.spec_modifiers(key.1).keys().len() == 1,
        layout.spec_modifiers(key.2).keys().len() == 1,
    ensures
        ({
            let m1 = layout.spec_modifiers(key.0).keys()[0];
            let m2 = layout.spec_modifiers(key.1).keys()[0];
            let m3 = layout.spec_modifiers(key.2).keys()[0];
            let b1 = layout.spec_base(key.0);
            let b2 = layout.spec_base(key.1);
            let b3 = layout.spec_base(key.2);
            &&& one_shot_stream(layout, key) == seq![m1, b1, m2, b2, m3, b3]
            &&& one_shot_resolved(layout, seq![(key, source)]) == seq![
                ((m1, b1, m2), source),
                ((b1, m2, b2), source),
                ((m2, b2, m3), source),
                ((b2, m3, b3), source),
            ]
        }),
{
    let m1 = layout.spec_modifiers(key.0).keys()[0];
    let m2 = layout.spec_modifiers(key.1).keys()[0];
    let m3 = layout.spec_modifiers(key.2).keys()[0];
    let b1 = layout.spec_base(key.0);
    let b2 = layout.spec_base(key.1);
    let b3 = layout.spec_base(key.2);
    assert(one_shot_keys(layout, key.0) =~= seq![m1, b1]);
    assert(one_shot_keys(layout, key.1) =~= seq![m2, b2]);
    assert(one_shot_keys(layout, key.2) =~= seq![m3, b3]);
    let stream = one_shot_stream(layout, key);
    assert(stream =~= seq![m1, b1, m2, b2, m3, b3]);
    let one = seq![(key, source)];
    assert(one.drop_last() =~= Seq::<(KeyTriple, usize)>::empty());
    assert(one_shot_resolved(layout, one.drop_last()) =~= Seq::<(KeyTriple, usize)>::empty());
    assert(one_shot_resolved(layout, one) =~= tagged_windows(stream, source));
    assert(tagged_windows(stream, source) =~= seq![
        ((m1, b1, m2), source),
        ((b1, m2, b2), source),
        ((m2, b2, m3), source),
        ((b2, m3, b3), source),
    ]);
}

/// No key triple that the hold pass gives has the same key twice in a row:
/// neither `(K, K, M)` nor `(M, K, K)` is among them, whatever the layout and
/// the trigrams.
pub proof fn lemma_hold_no_repeat(
    layout: &Layout,
    trigrams: Seq<(KeyTriple, usize)>,
    k: LayerKeyIndex,
    m: LayerKeyIndex,
)
    ensures
        position(accumulate(hold_contributions(layout, trigrams)), (k, k, m)).is_none(),
        position(accumulate(hold_contributions(layout, trigrams)), (m, k, k)).is_none(),
{
    let entries = accumulate(hold_contributions(layout, trigrams));
    lemma_hold_entries(layout, trigrams, usize::MAX as int + 1);
    lemma_position(entries, (k, k, m));
    lemma_position(entries, (m, k, k));
    if position(entries, (k, k, m)).is_some() {
        let p = position(entries, (k, k, m)).unwrap();
        assert(no_repeat(entries[p].0));
    }
    if position(entries, (m, k, k)).is_some() {
        let p = position(entries, (m, k, k)).unwrap();
        assert(no_repeat(entries[p].0));
    }
}

/// Where one place of a plan has two candidate keys and the others offer one
/// choice, the trigram is typed in two ways, and the weight goes in two halves
/// to the key triples of the one way and of the other.
pub proof fn lemma_two_candidates_halve(layout: &Layout, key: KeyTriple, weight: Weight)
    requires
        layout.wf(),
        layout.has_keys(key),
        on_lock_layer(layout, key.0) || on_lock_layer(layout, key.1) || on_lock_layer(
            layout,
            key.2,
        ),
        !(on_lock_layer(layout, key.0) && layout.layerkeys@[key.0 as int].layer
            == layout.layerkeys@[key.1 as int].layer && layout.layerkeys@[key.1 as int].layer
            == layout.layerkeys@[key.2 as int].layer),
        ({
            let plan = lock_plan(layout, key);
            let a = plan.after1.len();
            let b = plan.before2.len();
            let c = plan.after2.len();
            let d = plan.before3.len();
            ||| a == 2 && b == 1 && c == 1 && d == 1
            ||| a == 1 && b == 2 && c == 1 && d == 1
            ||| a == 1 && b == 1 && c == 2 && d == 1
            ||| a == 1 && b == 1 && c == 1 && d == 2
        }),
        weight.paths * 2 <= u64::MAX,
    ensures
        lock_plan(layout, key).ways() == 2,
        spec_lock_targets(layout, key) == tagged_windows(lock_plan(layout, key).path(0), 2u64)
            + tagged_windows(lock_plan(layout, key).path(1), 2u64),
        forall|i: int|
            0 <= i < share_out(spec_lock_targets(layout, key), seq![weight]).len() ==> (
            #[trigger] share_out(spec_lock_targets(layout, key), seq![weight])[i]).1 == (Weight {
                source: weight.source,
                penalty: weight.penalty,
                paths: (2 * weight.paths) as u64,
            }),
{
    let plan = lock_plan(layout, key);
    let a = plan.after1.len();
    let b = plan.before2.len();
    let c = plan.after2.len();
    let d = plan.before3.len();
    assert(a * b * c * d == 2) by (nonlinear_arith)
        requires
            (a == 2 && b == 1 && c == 1 && d == 1) || (a == 1 && b == 2 && c == 1 && d == 1) || (a
                == 1 && b == 1 && c == 2 && d == 1) || (a == 1 && b == 1 && c == 1 && d == 2),
    ;
    assert(plan.targets_upto(0) =~= Seq::empty());
    assert(plan.targets_upto(1) =~= tagged_windows(plan.path(0), 2u64));
    assert(plan.targets_upto(2) =~= tagged_windows(plan.path(0), 2u64) + tagged_windows(
        plan.path(1),
        2u64,
    ));
    let targets = spec_lock_targets(layout, key);
    lemma_targets_upto(plan, 2);
    lemma_shares_of_one(targets, weight, 2u64);
}

/// Where every target divides by `ways`, every contribution of a single
/// weight is that weight divided by `ways`.
proof fn lemma_shares_of_one(targets: Seq<(KeyTriple, u64)>, weight: Weight, ways: u64)
    requires
        forall|i: int| 0 <= i < targets.len() ==> (#[trigger] targets[i]).1 == ways,
        weight.paths * ways <= u64::MAX,
    ensures
        share_out(targets, seq![weight]).len() == targets.len(),
        forall|i: int|
            0 <= i < share_out(targets, seq![weight]).len() ==> (#[trigger] share_out(
                targets,
                seq![weight],
            )[i]) == (
                targets[i].0,
                Weight {
                    source: weight.source,
                    penalty: weight.penalty,
                    paths: (ways * weight.paths) as u64,
                },
            ),
    decreases targets.len(),
{
    if targets.len() > 0 {
        let before = share_out(targets.drop_last(), seq![weight]);
        let last = targets.last();
        let row = seq![weight].map_values(|w: Weight| (last.0, w.spec_split(last.1)));
        assert forall|i: int| 0 <= i < targets.drop_last().len() implies (
        #[trigger] targets.drop_last()[i]).1 == ways by {
            assert(targets.drop_last()[i] == targets[i]);
        }
        lemma_shares_of_one(targets.drop_last(), weight, ways);
        assert(targets[targets.len() - 1].1 == ways);
        assert(weight.paths * ways == ways * weight.paths) by (nonlinear_arith);
        assert forall|i: int| 0 <= i < share_out(targets, seq![weight]).len() implies (
        #[trigger] share_out(targets, seq![weight])[i]) == (
            targets[i].0,
            Weight {
                source: weight.source,
                penalty: weight.penalty,
                paths: (ways * weight.paths) as u64,
            },
        ) by {
            if i < before.len() {
                assert(share_out(targets, seq![weight])[i] == before[i]);
                assert(targets.drop_last()[i] == targets[i]);
            } else {
                assert(share_out(targets, seq![weight])[i] == row[0]);
            }
        }
    }
}

/// A trigram without a key on a locked layer passes the lock pass as it is:
/// the same keys, with the same weights.
pub proof fn lemma_no_lock_pass_through(layout: &Layout, key: KeyTriple, weights: Seq<Weight>)
    requires
        !on_lock_layer(layout, key.0),
        !on_lock_layer(layout, key.1),
        !on_lock_layer(layout, key.2),
    ensures
        spec_lock_targets(layout, key) == seq![(key, 1u64)],
        share_out(spec_lock_targets(layout, key), weights) == weights.map_values(
            |w: Weight| (key, w),
        ),
{
    let targets = spec_lock_targets(layout, key);
    assert(targets.drop_last() =~= Seq::<(KeyTriple, u64)>::empty());
    assert(share_out(targets.drop_last(), weights) =~= Seq::<(KeyTriple, Weight)>::empty());
    assert forall|i: int| 0 <= i < weights.len() implies (#[trigger] weights[i]).spec_split(1u64)
        == weights[i] by {
        assert(weights[i].paths * 1 == weights[i].paths);
    }
    assert(share_out(targets, weights) =~= weights.map_values(|w: Weight| (key, w)));
}

/// On a layout without one-shot keys the one-shot pass changes nothing.
pub proof fn lemma_no_one_shot_identity(layout: &Layout, trigrams: Seq<(KeyTriple, usize)>)
    requires
        !has_layer_kind(layout.layerkeys@, LayerModifierType::OneShot),
        trigrams_within(trigrams, layout),
    ensures
        one_shot_resolved(layout, trigrams) == trigrams,
    decreases trigrams.len(),
{
    if trigrams.len() > 0 {
        let t = trigrams.last();
        assert(trigrams_within(trigrams.drop_last(), layout)) by {
            assert forall|i: int| 0 <= i < trigrams.drop_last().len() implies layout.has_keys(
                (#[trigger] trigrams.drop_last()[i]).0,
            ) by {
                assert(trigrams.drop_last()[i] == trigrams[i]);
            }
        }
        lemma_no_one_shot_identity(layout, trigrams.drop_last());
        assert(layout.has_keys(trigrams[trigrams.len() - 1].0));
        assert(layout.layerkeys@[t.0.0 as int].modifiers.kind() != LayerModifierType::OneShot);
        assert(layout.layerkeys@[t.0.1 as int].modifiers.kind() != LayerModifierType::OneShot);
        assert(layout.layerkeys@[t.0.2 as int].modifiers.kind() != LayerModifierType::OneShot);
        assert(one_shot_stream(layout, t.0) =~= seq![t.0.0, t.0.1, t.0.2]);
        assert(tagged_windows(one_shot_stream(layout, t.0), t.1) =~= seq![t]);
        assert(one_shot_resolved(layout, trigrams) =~= trigrams.drop_last().push(t));
        assert(trigrams.drop_last().push(t) =~= trigrams);
    } else {
        assert(one_shot_resolved(layout, trigrams) =~= trigrams);
    }
}

/// The one candidate of a trigram of keys that are not held is the trigram
/// itself.
proof fn lemma_unheld_candidates(layout: &Layout, key: KeyTriple)
    requires
        !(layout.spec_modifiers(key.0) is Hold),
        !(layout.spec_modifiers(key.1) is Hold),
        !(layout.spec_modifiers(key.2) is Hold),
    ensures
        hold_candidates(layout, key) == seq![(key, 0u8)],
{
    let none = Seq::<LayerKeyIndex>::empty();
    assert(take_one(key.0, none) =~= seq![(key.0, 0u8)]);
    assert(take_one(key.1, none) =~= seq![(key.1, 0u8)]);
    assert(take_one(key.2, none) =~= seq![(key.2, 0u8)]);
    assert(take_two(key.0, none).len() == 0 && take_two(key.1, none).len() == 0 && take_two(
        key.2,
        none,
    ).len() == 0);
    assert(take_three(key.0, none).len() == 0 && take_three(key.1, none).len() == 0 && take_three(
        key.2,
        none,
    ).len() == 0);
    let one1 = take_one(key.0, none);
    let one2 = take_one(key.1, none);
    let one3 = take_one(key.2, none);
    assert(one1.len() * one2.len() * one3.len() == 1) by (nonlinear_arith)
        requires
            one1.len() == 1,
            one2.len() == 1,
            one3.len() == 1,
    ;
    assert(one_each(one1, one2, one3) =~= seq![(key, 0u8)]);
    assert(two_then_one(take_two(key.0, none), one2).len() == 0) by (nonlinear_arith)
        requires
            take_two(key.0, none).len() == 0,
            two_then_one(take_two(key.0, none), one2).len() == take_two(key.0, none).len()
                * one2.len(),
    ;
    assert(one_then_two(one1, take_two(key.1, none)).len() == 0) by (nonlinear_arith)
        requires
            take_two(key.1, none).len() == 0,
            one_then_two(one1, take_two(key.1, none)).len() == one1.len() * take_two(
                key.1,
                none,
            ).len(),
    ;
    assert(two_then_one(take_two(key.1, none), one3).len() == 0) by (nonlinear_arith)
        requires
            take_two(key.1, none).len() == 0,
            two_then_one(take_two(key.1, none), one3).len() == take_two(key.1, none).len()
                * one3.len(),
    ;
    assert(one_then_two(one2, take_two(key.2, none)).len() == 0) by (nonlinear_arith)
        requires
            take_two(key.2, none).len() == 0,
            one_then_two(one2, take_two(key.2, none)).len() == one2.len() * take_two(
                key.2,
                none,
            ).len(),
    ;
    assert(hold_candidates(layout, key) =~= seq![(key, 0u8)]);
}

/// On a layout without held keys the hold pass changes nothing: a trigram
/// without a repeated key contributes its whole weight under its own keys.
/// (A trigram with a repeated key is dropped by the pass on every layout.)
pub proof fn lemma_no_hold_identity(layout: &Layout, trigrams: Seq<(KeyTriple, usize)>)
    requires
        !has_layer_kind(layout.layerkeys@, LayerModifierType::Hold),
        trigrams_within(trigrams, layout),
        forall|i: int| 0 <= i < trigrams.len() ==> no_repeat((#[trigger] trigrams[i]).0),
    ensures
        hold_contributions(layout, trigrams) == whole_contributions(trigrams),
    decreases trigrams.len(),
{
    if trigrams.len() > 0 {
        let t = trigrams.last();
        let rest = trigrams.drop_last();
        assert(trigrams_within(rest, layout)) by {
            assert forall|i: int| 0 <= i < rest.len() implies layout.has_keys(
                (#[trigger] rest[i]).0,
            ) by {
                assert(rest[i] == trigrams[i]);
            }
        }
        assert forall|i: int| 0 <= i < rest.len() implies no_repeat((#[trigger] rest[i]).0) by {
            assert(rest[i] == trigrams[i]);
        }
        lemma_no_hold_identity(layout, rest);
        assert(layout.has_keys(trigrams[trigrams.len() - 1].0));
        assert(no_repeat(trigrams[trigrams.len() - 1].0));
        assert(layout.layerkeys@[t.0.0 as int].modifiers.kind() != LayerModifierType::Hold);
        assert(layout.layerkeys@[t.0.1 as int].modifiers.kind() != LayerModifierType::Hold);
        assert(layout.layerkeys@[t.0.2 as int].modifiers.kind() != LayerModifierType::Hold);
        lemma_unheld_candidates(layout, t.0);
        let candidates = hold_candidates(layout, t.0);
        assert(candidates.drop_last() =~= Seq::<Triple>::empty());
        assert(kept(candidates.drop_last(), t.1) =~= Seq::<(KeyTriple, Weight)>::empty());
        assert(kept(candidates, t.1) =~= seq![(t.0, Weight::spec_whole(t.1))]);
        assert(hold_contributions(layout, trigrams) =~= whole_contributions(trigrams));
    } else {
        assert(hold_contributions(layout, trigrams) =~= whole_contributions(trigrams));
    }
}

/// Adding the weights of a new key, one after the other, gives one new entry
/// with these weights.
proof fn lemma_add_row(entries: Seq<Entry>, key: KeyTriple, weights: Seq<Weight>)
    requires
        position(entries, key).is_none(),
        weights.len() > 0,
    ensures
        add_all(entries, weights.map_values(|w: Weight| (key, w))) == entries.push((key, weights)),
    decreases weights.len(),
{
    let row = weights.map_values(|w: Weight| (key, w));
    let rest = weights.drop_last();
    assert(row.drop_last() =~= rest.map_values(|w: Weight| (key, w)));
    assert(row.last() == (key, weights.last()));
    if weights.len() == 1 {
        assert(add_all(entries, row.drop_last()) == entries);
        assert(seq![weights.last()] =~= weights);
    } else {
        lemma_add_row(entries, key, rest);
        let before = entries.push((key, rest));
        lemma_position(entries, key);
        lemma_position(before, key);
        assert(before[entries.len() as int].0 == key);
        assert(position(before, key) == Some(entries.len() as int));
        assert(rest.push(weights.last()) =~= weights);
        assert(before.update(entries.len() as int, (key, weights)) =~= entries.push(
            (key, weights),
        ));
    }
}

/// On a layout without locked layers the lock pass changes nothing: it gives
/// back the entries of a valid accumulator as they are.
pub proof fn lemma_no_lock_identity(layout: &Layout, entries: Seq<Entry>)
    requires
        !has_layer_kind(layout.layerkeys@, LayerModifierType::Lock),
        keys_within(entries, layout),
        keys_distinct(entries),
        entries_nonempty(entries),
    ensures
        accumulate(lock_contributions(layout, entries)) == entries,
    decreases entries.len(),
{
    if entries.len() > 0 {
        let e = entries.last();
        let rest = entries.drop_last();
        assert(keys_within(rest, layout)) by {
            assert forall|i: int| 0 <= i < rest.len() implies layout.has_keys(
                (#[trigger] rest[i]).0,
            ) by {
                assert(rest[i] == entries[i]);
            }
        }
        assert(keys_distinct(rest)) by {
            assert forall|i: int, j: int|
                0 <= i < rest.len() && 0 <= j < rest.len() && i != j implies (#[trigger] rest[i]).0
                != (#[trigger] rest[j]).0 by {
                assert(rest[i] == entries[i]);
                assert(rest[j] == entries[j]);
            }
        }
        assert(entries_nonempty(rest)) by {
            assert forall|i: int| 0 <= i < rest.len() implies (#[trigger] rest[i]).1.len() > 0 by {
                assert(rest[i] == entries[i]);
            }
        }
        lemma_no_lock_identity(layout, rest);
        assert(layout.has_keys(entries[entries.len() - 1].0));
        assert(layout.layerkeys@[e.0.0 as int].modifiers.kind() != LayerModifierType::Lock);
        assert(layout.layerkeys@[e.0.1 as int].modifiers.kind() != LayerModifierType::Lock);
        assert(layout.layerkeys@[e.0.2 as int].modifiers.kind() != LayerModifierType::Lock);
        lemma_no_lock_pass_through(layout, e.0, e.1);
        let row = e.1.map_values(|w: Weight| (e.0, w));
        lemma_add_all_concat(Seq::empty(), lock_contributions(layout, rest), row);
        lemma_position(rest, e.0);
        assert(position(rest, e.0).is_none()) by {
            if position(rest, e.0).is_some() {
                let p = position(rest, e.0).unwrap();
                assert(rest[p] == entries[p]);
                assert(entries[p].0 != entries[entries.len() - 1].0);
            }
        }
        assert(entries[entries.len() - 1].1.len() > 0);
        lemma_add_row(rest, e.0, e.1);
        assert(rest.push(e) =~= entries);
    } else {
        assert(lock_contributions(layout, entries) =~= Seq::<(KeyTriple, Weight)>::empty());
    }
}

/// No switch is offered next to whitespace: where the first or the second key
/// is whitespace, nothing is pressed between them, and where the second or the
/// third is, nothing is pressed between those. With whitespace in the middle
/// the trigram is typed in one way, as its three keys.
pub proof fn lemma_no_switch_next_to_whitespace(layout: &Layout, key: KeyTriple)
    ensures
        ({
            let plan = lock_plan(layout, key);
            let ws1 = char_is_whitespace(layout.layerkeys@[key.0 as int].symbol);
            let ws2 = char_is_whitespace(layout.layerkeys@[key.1 as int].symbol);
            let ws3 = char_is_whitespace(layout.layerkeys@[key.2 as int].symbol);
            &&& ws1 || ws2 ==> plan.after1 == seq![None::<LayerKeyIndex>] && plan.before2
                == seq![None::<LayerKeyIndex>]
            &&& ws2 || ws3 ==> plan.after2 == seq![None::<LayerKeyIndex>] && plan.before3
                == seq![None::<LayerKeyIndex>]
            &&& ws2 ==> plan.targets() == seq![((plan.key1, plan.key2, plan.key3), 1u64)]
            &&& ws2 ==> spec_lock_targets(layout, key).len() == 1 && spec_lock_targets(
                layout,
                key,
            )[0].1 == 1
        }),
{
    let plan = lock_plan(layout, key);
    if char_is_whitespace(layout.layerkeys@[key.1 as int].symbol) {
        let none = seq![None::<LayerKeyIndex>];
        assert(plan.after1 == none && plan.before2 == none && plan.after2 == none && plan.before3
            == none);
        assert(plan.ways() == 1) by (nonlinear_arith)
            requires
                plan.ways() == plan.after1.len() * plan.before2.len() * plan.after2.len()
                    * plan.before3.len(),
                plan.after1.len() == 1,
                plan.before2.len() == 1,
                plan.after2.len() == 1,
                plan.before3.len() == 1,
        ;
        let slots = seq![
            Some(plan.key1),
            plan.after1[0],
            plan.before2[0],
            Some(plan.key2),
            plan.after2[0],
            plan.before3[0],
            Some(plan.key3),
        ];
        lemma_present_three(plan.key1, plan.key2, plan.key3);
        assert(slots =~= seq![
            Some(plan.key1),
            None,
            None,
            Some(plan.key2),
            None,
            None,
            Some(plan.key3),
        ]);
        assert(plan.path(0) == seq![plan.key1, plan.key2, plan.key3]);
        assert(plan.targets_upto(0) =~= Seq::empty());
        assert(tagged_windows(plan.path(0), 1u64) =~= seq![
            ((plan.key1, plan.key2, plan.key3), 1u64),
        ]);
        assert(plan.targets_upto(1) =~= seq![((plan.key1, plan.key2, plan.key3), 1u64)]);
    }
}

/// Three keys with gaps between them are the three keys.
proof fn lemma_present_three(k1: LayerKeyIndex, k2: LayerKeyIndex, k3: LayerKeyIndex)
    ensures
        present(seq![Some(k1), None, None, Some(k2), None, None, Some(k3)]) == seq![k1, k2, k3],
{
    let s7 = seq![Some(k1), None, None, Some(k2), None, None, Some(k3)];
    let s6 = seq![Some(k1), None, None, Some(k2), None, None];
    let s5 = seq![Some(k1), None, None, Some(k2), None];
    let s4 = seq![Some(k1), None, None, Some(k2)];
    let s3 = seq![Some(k1), None, None];
    let s2 = seq![Some(k1), None];
    let s1 = seq![Some(k1)];
    assert(s1.drop_last() =~= Seq::<Option<LayerKeyIndex>>::empty());
    assert(s2.drop_last() =~= s1);
    assert(s3.drop_last() =~= s2);
    assert(s4.drop_last() =~= s3);
    assert(s5.drop_last() =~= s4);
    assert(s6.drop_last() =~= s5);
    assert(s7.drop_last() =~= s6);
    assert(present(Seq::<Option<LayerKeyIndex>>::empty()) =~= Seq::<LayerKeyIndex>::empty());
    assert(present(s1.drop_last()) =~= Seq::<LayerKeyIndex>::empty());
    assert(s1.last() == Some(k1));
    assert(present(s1) =~= seq![k1]);
    assert(present(s2) =~= seq![k1]);
    assert(present(s3) =~= seq![k1]);
    assert(present(s4) =~= seq![k1, k2]);
    assert(present(s5) =~= seq![k1, k2]);
    assert(present(s6) =~= seq![k1, k2]);
    assert(present(s7) =~= seq![k1, k2, k3]);
}

/// The key that types a character is a key of a valid layout.
proof fn lemma_symbol_within(symbols: Seq<(char, LayerKeyIndex)>, c: char, len: int)
    requires
        forall|i: int| 0 <= i < symbols.len() ==> ((#[trigger] symbols[i]).1 as int) < len,
    ensures
        symbol_index(symbols, c) matches Some(k) ==> (k as int) < len,
    decreases symbols.len(),
{
    if symbols.len() > 0 && symbols[0].0 != c {
        assert forall|i: int| 0 <= i < symbols.drop_first().len() implies ((
        #[trigger] symbols.drop_first()[i]).1 as int) < len by {
            assert(symbols.drop_first()[i] == symbols[i + 1]);
        }
        lemma_symbol_within(symbols.drop_first(), c, len);
    }
}

/// The translated trigrams are made of keys of a valid layout.
pub proof fn lemma_mapped_within(
    layout: &Layout,
    grams: Seq<(char, char, char)>,
    exclude_line_breaks: bool,
)
    requires
        layout.wf(),
    ensures
        trigrams_within(mapped_trigrams(layout, grams, exclude_line_breaks), layout),
    decreases grams.len(),
{
    if grams.len() > 0 {
        let before = mapped_trigrams(layout, grams.drop_last(), exclude_line_breaks);
        let t = grams.last();
        let len = layout.layerkeys@.len() as int;
        lemma_mapped_within(layout, grams.drop_last(), exclude_line_breaks);
        lemma_symbol_within(layout.symbols@, t.0, len);
        lemma_symbol_within(layout.symbols@, t.1, len);
        lemma_symbol_within(layout.symbols@, t.2, len);
        let mapped = mapped_trigrams(layout, grams, exclude_line_breaks);
        assert forall|i: int| 0 <= i < mapped.len() implies layout.has_keys(
            (#[trigger] mapped[i]).0,
        ) by {
            if i < before.len() {
                assert(mapped[i] == before[i]);
            }
        }
    }
}

/// Two layouts with the same symbols translate alike, whatever else differs.
pub proof fn lemma_same_symbols(
    one: &Layout,
    other: &Layout,
    grams: Seq<(char, char, char)>,
    exclude_line_breaks: bool,
)
    requires
        one.symbols@ == other.symbols@,
    ensures
        mapped_trigrams(one, grams, exclude_line_breaks) == mapped_trigrams(
            other,
            grams,
            exclude_line_breaks,
        ),
        not_found(one, grams, exclude_line_breaks) == not_found(other, grams, exclude_line_breaks),
    decreases grams.len(),
{
    if grams.len() > 0 {
        lemma_same_symbols(one, other, grams.drop_last(), exclude_line_breaks);
        assert(translated(one, grams.last()) == translated(other, grams.last()));
    }
}

/// On a layout without one-shot, held or locked keys the result is the whole
/// weight of each translated trigram under its own keys, whatever the three
/// flags of the layout report and whether or not the mapper resolves held
/// modifiers. (Trigrams with a repeated key are left out: the hold pass drops
/// them on every layout.)
pub proof fn lemma_plain_layout(
    mapper: OnDemandTrigramMapper,
    layout: &Layout,
    grams: Seq<(char, char, char)>,
    exclude_line_breaks: bool,
)
    requires
        layout.wf(),
        !has_layer_kind(layout.layerkeys@, LayerModifierType::OneShot),
        !has_layer_kind(layout.layerkeys@, LayerModifierType::Hold),
        !has_layer_kind(layout.layerkeys@, LayerModifierType::Lock),
        forall|i: int|
            0 <= i < mapped_trigrams(layout, grams, exclude_line_breaks).len() ==> no_repeat(
                (#[trigger] mapped_trigrams(layout, grams, exclude_line_breaks)[i]).0,
            ),
    ensures
        mapper.spec_layerkey_indices(layout, grams, exclude_line_breaks) == accumulate(
            whole_contributions(mapped_trigrams(layout, grams, exclude_line_breaks)),
        ),
{
    let mapped = mapped_trigrams(layout, grams, exclude_line_breaks);
    let contributions = whole_contributions(mapped);
    let held = accumulate(contributions);
    lemma_mapped_within(layout, grams, exclude_line_breaks);
    lemma_no_one_shot_identity(layout, mapped);
    lemma_no_hold_identity(layout, mapped);
    let key_ok = |k: KeyTriple| layout.has_keys(k);
    let any_weight = |w: Weight| true;
    assert(contributions_all(contributions, key_ok, any_weight)) by {
        assert forall|i: int| 0 <= i < contributions.len() implies key_ok(
            (#[trigger] contributions[i]).0,
        ) && any_weight(contributions[i].1) by {
            assert(layout.has_keys(mapped[i].0));
        }
    }
    lemma_add_all_keeps(Seq::empty(), contributions, key_ok, any_weight);
    assert(keys_within(held, layout)) by {
        assert forall|i: int| 0 <= i < held.len() implies layout.has_keys(
            (#[trigger] held[i]).0,
        ) by {
            assert(key_ok(held[i].0));
        }
    }
    lemma_accumulate_gathers(contributions, (0, 0, 0));
    lemma_add_all_nonempty(Seq::empty(), contributions);
    lemma_no_lock_identity(layout, held);
}

/// Skipping a pass for want of its sort of layer changes nothing: two
/// layouts with the same tables and without one-shot, held or locked keys give
/// the same result, whatever their flags report, and lose the same trigrams.
pub proof fn lemma_capability_skip(
    mapper: OnDemandTrigramMapper,
    flags_on: &Layout,
    flags_off: &Layout,
    grams: Seq<(char, char, char)>,
    exclude_line_breaks: bool,
)
    requires
        flags_on.wf(),
        flags_on.layerkeys@ == flags_off.layerkeys@,
        flags_on.symbols@ == flags_off.symbols@,
        !has_layer_kind(flags_on.layerkeys@, LayerModifierType::OneShot),
        !has_layer_kind(flags_on.layerkeys@, LayerModifierType::Hold),
        !has_layer_kind(flags_on.layerkeys@, LayerModifierType::Lock),
        forall|i: int|
            0 <= i < mapped_trigrams(flags_on, grams, exclude_line_breaks).len() ==> no_repeat(
                (#[trigger] mapped_trigrams(flags_on, grams, exclude_line_breaks)[i]).0,
            ),
    ensures
        mapper.spec_layerkey_indices(flags_on, grams, exclude_line_breaks)
            == mapper.spec_layerkey_indices(flags_off, grams, exclude_line_breaks),
        not_found(flags_on, grams, exclude_line_breaks) == not_found(
            flags_off,
            grams,
            exclude_line_breaks,
        ),
{
    lemma_same_symbols(flags_on, flags_off, grams, exclude_line_breaks);
    lemma_plain_layout(mapper, flags_on, grams, exclude_line_breaks);
    lemma_plain_layout(mapper, flags_off, grams, exclude_line_breaks);
}

} // verus!
