//! The trigram mapper: from the character trigrams of a corpus to the weights
//! of the key trigrams of a layout.

use crate::accumulator::{
    accumulate, contributions_all, lemma_add_all_keeps, lemma_add_weight_keys, Entry,
    TrigramIndices, Weight,
};
use crate::hold_layers::{hold_contributions, lemma_hold_entries, trigrams_within};
use crate::layout::{KeyTriple, LayerKey, LayerModifierType, Layout};
use crate::lock_layers::{
    keys_within, lemma_lock_entries, lemma_whole_weights, lock_contributions, weights_traceable,
    weights_whole, whole_share,
};
use crate::one_shot_layers::{map_trigrams, mapped_trigrams, not_found, one_shot_resolved, Trigrams};
use crate::windows::tagged_windows;
use vstd::prelude::*;

verus! {

/// Whether held modifiers are resolved into the keys that are pressed. The
/// penalty factor for keys pressed at once is applied by whoever turns the
/// shares into numbers; the mapper only counts its powers.
#[derive(Clone, Copy, Debug, PartialEq, Eq, Structural)]
pub struct SplitModifiersConfig {
    pub enabled: bool,
}

/// Generates key trigrams from character trigrams, resolving the modifiers of
/// the symbols on higher layers.
#[derive(Clone, Copy, Debug)]
pub struct OnDemandTrigramMapper {
    pub split_modifiers: SplitModifiersConfig,
}

/// Each trigram contributes its whole weight under its key triple.
pub open spec fn whole_contributions(trigrams: Seq<(KeyTriple, usize)>) -> Seq<
    (KeyTriple, Weight),
> {
    trigrams.map_values(|t: (KeyTriple, usize)| (t.0, Weight::spec_whole(t.1)))
}

/// Every trigram stems from a corpus trigram below `bound`.
pub open spec fn sources_below(trigrams: Seq<(KeyTriple, usize)>, bound: int) -> bool {
    forall|i: int| 0 <= i < trigrams.len() ==> (#[trigger] trigrams[i]).1 < bound
}

/// The translated trigrams stem from the corpus trigrams.
pub proof fn lemma_mapped_sources(
    layout: &Layout,
    grams: Seq<(char, char, char)>,
    exclude_line_breaks: bool,
)
    ensures
        sources_below(mapped_trigrams(layout, grams, exclude_line_breaks), grams.len() as int),
    decreases grams.len(),
{
    if grams.len() > 0 {
        let before = mapped_trigrams(layout, grams.drop_last(), exclude_line_breaks);
        lemma_mapped_sources(layout, grams.drop_last(), exclude_line_breaks);
        assert forall|i: int|
            0 <= i < mapped_trigrams(
                layout,
                grams,
                exclude_line_breaks,
            ).len() implies (#[trigger] mapped_trigrams(layout, grams, exclude_line_breaks)[i]).1
            < grams.len() by {
            if i < before.len() {
                assert(mapped_trigrams(layout, grams, exclude_line_breaks)[i] == before[i]);
            }
        }
    }
}

/// Resolving one-shot modifiers keeps the sources.
pub proof fn lemma_one_shot_sources(
    layout: &Layout,
    trigrams: Seq<(KeyTriple, usize)>,
    bound: int,
)
    requires
        sources_below(trigrams, bound),
    ensures
        sources_below(one_shot_resolved(layout, trigrams), bound),
    decreases trigrams.len(),
{
    if trigrams.len() > 0 {
        let t = trigrams.last();
        let before = one_shot_resolved(layout, trigrams.drop_last());
        let added = tagged_windows(crate::one_shot_layers::one_shot_stream(layout, t.0), t.1);
        assert(sources_below(trigrams.drop_last(), bound)) by {
            assert forall|i: int| 0 <= i < trigrams.drop_last().len() implies (
            #[trigger] trigrams.drop_last()[i]).1 < bound by {
                assert(trigrams.drop_last()[i] == trigrams[i]);
            }
        }
        lemma_one_shot_sources(layout, trigrams.drop_last(), bound);
        assert(trigrams[trigrams.len() - 1].1 < bound);
        assert forall|i: int|
            0 <= i < one_shot_resolved(layout, trigrams).len() implies (
        #[trigger] one_shot_resolved(layout, trigrams)[i]).1 < bound by {
            if i < before.len() {
                assert(one_shot_resolved(layout, trigrams)[i] == before[i]);
            } else {
                assert(one_shot_resolved(layout, trigrams)[i] == added[i - before.len()]);
            }
        }
    }
}

/// Gathering whole weights gives whole shares.
pub proof fn lemma_whole_entries(trigrams: Seq<(KeyTriple, usize)>, bound: int)
    requires
        sources_below(trigrams, bound),
    ensures
        weights_whole(accumulate(whole_contributions(trigrams)), bound),
{
    let contributions = whole_contributions(trigrams);
    let any_key = |k: KeyTriple| true;
    let is_whole = |w: Weight| whole_share(w, bound);
    assert(contributions_all(contributions, any_key, is_whole)) by {
        assert forall|i: int| 0 <= i < contributions.len() implies any_key(
            (#[trigger] contributions[i]).0,
        ) && is_whole(contributions[i].1) by {
            assert(trigrams[i].1 < bound);
        }
    }
    lemma_add_all_keeps(Seq::empty(), contributions, any_key, is_whole);
    let entries = accumulate(contributions);
    assert forall|i: int, j: int|
        0 <= i < entries.len() && 0 <= j < entries[i].1.len() implies whole_share(
        #[trigger] entries[i].1[j],
        bound,
    ) by {
        assert(is_whole(entries[i].1[j]));
    }
}

/// Whether the middle key of `key` is a held modifier that is also the key
/// before or after it: the modifier was held, not pressed twice.
pub open spec fn held_repeat(layout: &Layout, key: KeyTriple) -> bool {
    layout.layerkeys@[key.1 as int].is_modifier == LayerModifierType::Hold && (key.0 == key.1
        || key.1 == key.2)
}

/// The entries without those of [`held_repeat`].
pub open spec fn filtered_entries(layout: &Layout, entries: Seq<Entry>) -> Seq<Entry>
    decreases entries.len(),
{
    if entries.len() == 0 {
        Seq::empty()
    } else {
        let before = filtered_entries(layout, entries.drop_last());
        if held_repeat(layout, entries.last().0) {
            before
        } else {
            before.push(entries.last())
        }
    }
}

/// Whether `item` holds the three keys of the entry, as the layout describes
/// them, and its weights.
pub open spec fn describes(
    layout: &Layout,
    entry: Entry,
    item: ((&LayerKey, &LayerKey, &LayerKey), &Vec<Weight>),
) -> bool {
    &&& *item.0.0 == layout.layerkeys@[entry.0.0 as int]
    &&& *item.0.1 == layout.layerkeys@[entry.0.1 as int]
    &&& *item.0.2 == layout.layerkeys@[entry.0.2 as int]
    &&& item.1@ == entry.1
}

/// Gathers the whole weights of the trigrams by key triple.
fn gather(trigrams: &Vec<(KeyTriple, usize)>, layout: &Layout) -> (gathered: TrigramIndices)
    requires
        trigrams_within(trigrams@, layout),
    ensures
        gathered.wf(),
        gathered@ == accumulate(whole_contributions(trigrams@)),
        keys_within(gathered@, layout),
{
    let mut gathered = TrigramIndices::new();
    let ghost all = whole_contributions(trigrams@);
    let ghost key_ok = |k: KeyTriple| layout.has_keys(k);
    let mut i: usize = 0;
    assert(all.take(0) =~= Seq::empty());
    while i < trigrams.len()
        invariant
            i <= trigrams@.len(),
            all == whole_contributions(trigrams@),
            key_ok == |k: KeyTriple| layout.has_keys(k),
            trigrams_within(trigrams@, layout),
            gathered.wf(),
            gathered@ == accumulate(all.take(i as int)),
            keys_within(gathered@, layout),
        decreases trigrams@.len() - i,
    {
        let t = trigrams[i];
        let ghost entries = gathered@;
        gathered.insert_or_add_weight(t.0, Weight::whole(t.1));
        proof {
            assert(all.take(i as int + 1).drop_last() =~= all.take(i as int));
            assert(all.take(i as int + 1).last() == (t.0, Weight::spec_whole(t.1)));
            assert(layout.has_keys(trigrams@[i as int].0));
            assert(key_ok(t.0));
            assert(forall|x: int| 0 <= x < entries.len() ==> key_ok((#[trigger] entries[x]).0));
            lemma_add_weight_keys(entries, t.0, Weight::spec_whole(t.1), key_ok);
            assert forall|x: int| 0 <= x < gathered@.len() implies layout.has_keys(
                (#[trigger] gathered@[x]).0,
            ) by {
                assert(key_ok(gathered@[x].0));
            }
        }
        i += 1;
    }
    assert(all.take(trigrams@.len() as int) =~= all);
    gathered
}

impl OnDemandTrigramMapper {
    pub fn new(split_modifiers: SplitModifiersConfig) -> (r: Self)
        ensures
            r.split_modifiers == split_modifiers,
    {
        Self { split_modifiers }
    }

    /// The weights of the key trigrams of a corpus on a layout: the character
    /// trigrams are translated to key trigrams; one-shot modifiers are
    /// resolved where the layout has any; held modifiers are resolved where
    /// the layout has any and the mapper is set to do so, and the weights are
    /// gathered by key triple; and layer locks are resolved where the layout
    /// has any.
    pub open spec fn spec_layerkey_indices(
        &self,
        layout: &Layout,
        grams: Seq<(char, char, char)>,
        exclude_line_breaks: bool,
    ) -> Seq<Entry> {
        let mapped = mapped_trigrams(layout, grams, exclude_line_breaks);
        let pressed = if layout.one_shot_layers {
            one_shot_resolved(layout, mapped)
        } else {
            mapped
        };
        let held = if layout.hold_layers && self.split_modifiers.enabled {
            accumulate(hold_contributions(layout, pressed))
        } else {
            accumulate(whole_contributions(pressed))
        };
        if layout.lock_layers {
            accumulate(lock_contributions(layout, held))
        } else {
            held
        }
    }

    /// Computes [`Self::spec_layerkey_indices`], together with the places of
    /// the trigrams whose weight is lost because the layout lacks one of their
    /// characters. Every weight of the result is a part of the weight of one
    /// of the corpus trigrams.
    pub fn layerkey_indices(
        &self,
        trigrams: &Trigrams,
        layout: &Layout,
        exclude_line_breaks: bool,
    ) -> (r: (TrigramIndices, Vec<usize>))
        requires
            layout.wf(),
        ensures
            r.0.wf(),
            r.0@ == self.spec_layerkey_indices(layout, trigrams.grams@, exclude_line_breaks),
            r.1@ == not_found(layout, trigrams.grams@, exclude_line_breaks),
            keys_within(r.0@, layout),
            weights_traceable(r.0@, trigrams.grams@.len() as int),
    {
        let ghost bound = trigrams.grams@.len() as int;
        let (mut trigram_keys_vec, not_found_weight) = map_trigrams(
            trigrams,
            layout,
            exclude_line_breaks,
        );
        proof {
            lemma_mapped_sources(layout, trigrams.grams@, exclude_line_breaks);
        }
        if layout.has_one_shot_layers() {
            proof {
                lemma_one_shot_sources(layout, trigram_keys_vec@, bound);
            }
            trigram_keys_vec = self.process_one_shot_layers(&trigram_keys_vec, layout);
        }
        let trigram_keys = if layout.has_hold_layers() && self.split_modifiers.enabled {
            proof {
                lemma_hold_entries(layout, trigram_keys_vec@, bound);
            }
            self.process_hold_layers(&trigram_keys_vec, layout)
        } else {
            proof {
                lemma_whole_entries(trigram_keys_vec@, bound);
            }
            gather(&trigram_keys_vec, layout)
        };
        proof {
            lemma_whole_weights(trigram_keys@, bound);
        }
        if layout.has_lock_layers() {
            proof {
                lemma_lock_entries(layout, trigram_keys@, bound);
            }
            (self.process_lock_layers(&trigram_keys, layout), not_found_weight)
        } else {
            (trigram_keys, not_found_weight)
        }
    }

    /// The entries of `trigrams` with their keys as the layout describes them,
    /// without those whose middle key is a held modifier that is also the key
    /// before or after it.
    pub fn get_filtered_layerkeys<'t, 's>(
        trigrams: &'t TrigramIndices,
        layout: &'s Layout,
    ) -> (layerkeys: Vec<((&'s LayerKey, &'s LayerKey, &'s LayerKey), &'t Vec<Weight>)>)
        requires
            keys_within(trigrams@, layout),
        ensures
            layerkeys@.len() == filtered_entries(layout, trigrams@).len(),
            forall|i: int|
                0 <= i < layerkeys@.len() ==> describes(
                    layout,
                    filtered_entries(layout, trigrams@)[i],
                    #[trigger] layerkeys@[i],
                ),
    {
        let mut layerkeys: Vec<((&'s LayerKey, &'s LayerKey, &'s LayerKey), &'t Vec<Weight>)> =
            Vec::new();
        let mut e: usize = 0;
        while e < trigrams.len()
            invariant
                e <= trigrams@.len(),
                keys_within(trigrams@, layout),
                layerkeys@.len() == filtered_entries(layout, trigrams@.take(e as int)).len(),
                forall|i: int|
                    0 <= i < layerkeys@.len() ==> describes(
                        layout,
                        filtered_entries(layout, trigrams@.take(e as int))[i],
                        #[trigger] layerkeys@[i],
                    ),
            decreases trigrams@.len() - e,
        {
            let key = trigrams.key_at(e);
            assert(layout.has_keys(trigrams@[e as int].0));
            let k2 = layout.get_layerkey(key.1);
            proof {
                assert(trigrams@.take(e as int + 1).drop_last() =~= trigrams@.take(e as int));
                assert(trigrams@.take(e as int + 1).last() == trigrams@[e as int]);
            }
            if !(k2.is_modifier.is_hold() && (key.0 == key.1 || key.1 == key.2)) {
                layerkeys.push(
                    (
                        (layout.get_layerkey(key.0), k2, layout.get_layerkey(key.2)),
                        trigrams.weights_at(e),
                    ),
                );
            }
            e += 1;
        }
        assert(trigrams@.take(trigrams@.len() as int) =~= trigrams@);
        layerkeys
    }
}

} // verus!
