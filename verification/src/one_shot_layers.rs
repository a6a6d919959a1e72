//! Translating character trigrams to key trigrams, and resolving one-shot
//! modifiers: they are pressed, in order, before the base key, so a trigram
//! becomes a longer run of presses, and each three presses in a row are a key
//! trigram with the whole weight.

use crate::hold_layers::trigrams_within;
use crate::layout::{layerkey_valid, KeyTriple, LayerKeyIndex, LayerModifiers, Layout};
use crate::trigram_mapper::OnDemandTrigramMapper;
use crate::windows::{extend_windows, tagged_windows};
use vstd::prelude::*;

verus! {

/// The character trigrams of a corpus. Their weights stay with the caller, in
/// the same order: the mapper speaks of a weight by the place of its trigram.
pub struct Trigrams {
    pub grams: Vec<(char, char, char)>,
}

/// Whether the trigram goes from a line break to something else: that is not
/// typed in one go.
pub open spec fn crosses_line_break(t: (char, char, char)) -> bool {
    (t.0 == '\n' && t.1 != '\n') || (t.1 == '\n' && t.2 != '\n')
}

/// The keys of the three characters, where the layout has all three.
pub open spec fn translated(layout: &Layout, t: (char, char, char)) -> Option<KeyTriple> {
    match (
        layout.spec_index_for_symbol(t.0),
        layout.spec_index_for_symbol(t.1),
        layout.spec_index_for_symbol(t.2),
    ) {
        (Some(k1), Some(k2), Some(k3)) => Some((k1, k2, k3)),
        _ => None,
    }
}

/// The key trigrams of the character trigrams, each with the place of its
/// character trigram: without those that cross a line break, where these are
/// excluded, and without those with a character that the layout lacks.
pub open spec fn mapped_trigrams(
    layout: &Layout,
    grams: Seq<(char, char, char)>,
    exclude_line_breaks: bool,
) -> Seq<(KeyTriple, usize)>
    decreases grams.len(),
{
    if grams.len() == 0 {
        Seq::empty()
    } else {
        let before = mapped_trigrams(layout, grams.drop_last(), exclude_line_breaks);
        if exclude_line_breaks && crosses_line_break(grams.last()) {
            before
        } else {
            match translated(layout, grams.last()) {
                Some(key) => before.push((key, (grams.len() - 1) as usize)),
                None => before,
            }
        }
    }
}

/// The places of the character trigrams whose weight is lost because the
/// layout lacks one of their characters. Those that are excluded for a line
/// break are not among them.
pub open spec fn not_found(
    layout: &Layout,
    grams: Seq<(char, char, char)>,
    exclude_line_breaks: bool,
) -> Seq<usize>
    decreases grams.len(),
{
    if grams.len() == 0 {
        Seq::empty()
    } else {
        let before = not_found(layout, grams.drop_last(), exclude_line_breaks);
        if exclude_line_breaks && crosses_line_break(grams.last()) {
            before
        } else {
            match translated(layout, grams.last()) {
                Some(_) => before,
                None => before.push((grams.len() - 1) as usize),
            }
        }
    }
}

/// Computes [`mapped_trigrams`] and [`not_found`].
pub fn map_trigrams(trigrams: &Trigrams, layout: &Layout, exclude_line_breaks: bool) -> (r: (
    Vec<(KeyTriple, usize)>,
    Vec<usize>,
))
    requires
        layout.wf(),
    ensures
        r.0@ == mapped_trigrams(layout, trigrams.grams@, exclude_line_breaks),
        r.1@ == not_found(layout, trigrams.grams@, exclude_line_breaks),
        trigrams_within(r.0@, layout),
{
    let mut mapped: Vec<(KeyTriple, usize)> = Vec::new();
    let mut lost: Vec<usize> = Vec::new();
    let ghost grams = trigrams.grams@;
    let mut i: usize = 0;
    while i < trigrams.grams.len()
        invariant
            i <= grams.len(),
            grams == trigrams.grams@,
            layout.wf(),
            mapped@ == mapped_trigrams(layout, grams.take(i as int), exclude_line_breaks),
            lost@ == not_found(layout, grams.take(i as int), exclude_line_breaks),
            trigrams_within(mapped@, layout),
        decreases grams.len() - i,
    {
        let t = trigrams.grams[i];
        proof {
            assert(grams.take(i as int + 1).drop_last() =~= grams.take(i as int));
            assert(grams.take(i as int + 1).last() == t);
        }
        let crosses = (t.0 == '\n' && t.1 != '\n') || (t.1 == '\n' && t.2 != '\n');
        if !(exclude_line_breaks && crosses) {
            let k1 = layout.get_layerkey_index_for_symbol(t.0);
            let k2 = layout.get_layerkey_index_for_symbol(t.1);
            let k3 = layout.get_layerkey_index_for_symbol(t.2);
            match (k1, k2, k3) {
                (Some(k1), Some(k2), Some(k3)) => {
                    mapped.push(((k1, k2, k3), i));
                },
                _ => {
                    lost.push(i);
                },
            }
        }
        i += 1;
    }
    assert(grams.take(grams.len() as int) =~= grams);
    (mapped, lost)
}

/// The presses for `idx`: the modifiers and then the base key of a one-shot
/// key, and the key itself otherwise.
pub open spec fn one_shot_keys(layout: &Layout, idx: LayerKeyIndex) -> Seq<LayerKeyIndex> {
    match layout.spec_modifiers(idx) {
        LayerModifiers::OneShot(mods) => mods@.push(layout.spec_base(idx)),
        _ => seq![idx],
    }
}

/// The presses for the trigram `key`.
pub open spec fn one_shot_stream(layout: &Layout, key: KeyTriple) -> Seq<LayerKeyIndex> {
    one_shot_keys(layout, key.0) + one_shot_keys(layout, key.1) + one_shot_keys(layout, key.2)
}

/// The key trigrams of the presses of each trigram, each with the whole
/// weight of the trigram.
pub open spec fn one_shot_resolved(layout: &Layout, trigrams: Seq<(KeyTriple, usize)>) -> Seq<
    (KeyTriple, usize),
>
    decreases trigrams.len(),
{
    if trigrams.len() == 0 {
        Seq::empty()
    } else {
        let t = trigrams.last();
        one_shot_resolved(layout, trigrams.drop_last()) + tagged_windows(
            one_shot_stream(layout, t.0),
            t.1,
        )
    }
}

/// Every key of `keys` is a key of the layout.
pub open spec fn stream_within(keys: Seq<LayerKeyIndex>, layout: &Layout) -> bool {
    forall|i: int| 0 <= i < keys.len() ==> layout.has_key(#[trigger] keys[i])
}

fn push_one_shot_keys(keys: &mut Vec<LayerKeyIndex>, layout: &Layout, idx: LayerKeyIndex)
    requires
        layout.wf(),
        layout.has_key(idx),
        stream_within(old(keys)@, layout),
    ensures
        final(keys)@ == old(keys)@ + one_shot_keys(layout, idx),
        stream_within(final(keys)@, layout),
{
    let (base, modifiers) = layout.resolve_modifiers(idx);
    proof {
        assert(layerkey_valid(layout.layerkeys@[idx as int], layout.layerkeys@.len() as int));
    }
    match modifiers {
        LayerModifiers::OneShot(mods) => {
            let mut i: usize = 0;
            assert(keys@ =~= old(keys)@ + mods@.take(0));
            while i < mods.len()
                invariant
                    i <= mods@.len(),
                    keys@ == old(keys)@ + mods@.take(i as int),
                    stream_within(keys@, layout),
                    forall|j: int| 0 <= j < mods@.len() ==> layout.has_key(#[trigger] mods@[j]),
                decreases mods@.len() - i,
            {
                keys.push(mods[i]);
                assert(keys@ =~= old(keys)@ + mods@.take(i as int + 1));
                i += 1;
            }
            keys.push(base);
            assert(mods@.take(mods@.len() as int) =~= mods@);
            assert(keys@ =~= old(keys)@ + one_shot_keys(layout, idx));
        },
        _ => {
            keys.push(idx);
            assert(keys@ =~= old(keys)@ + one_shot_keys(layout, idx));
        },
    }
}

impl OnDemandTrigramMapper {
    /// Resolves the one-shot modifiers of every trigram: computes
    /// [`one_shot_resolved`].
    pub fn process_one_shot_layers(
        &self,
        trigrams: &Vec<(KeyTriple, usize)>,
        layout: &Layout,
    ) -> (processed: Vec<(KeyTriple, usize)>)
        requires
            layout.wf(),
            trigrams_within(trigrams@, layout),
        ensures
            processed@ == one_shot_resolved(layout, trigrams@),
            trigrams_within(processed@, layout),
    {
        let mut processed: Vec<(KeyTriple, usize)> = Vec::new();
        let mut e: usize = 0;
        while e < trigrams.len()
            invariant
                e <= trigrams@.len(),
                layout.wf(),
                trigrams_within(trigrams@, layout),
                processed@ == one_shot_resolved(layout, trigrams@.take(e as int)),
                trigrams_within(processed@, layout),
            decreases trigrams@.len() - e,
        {
            let key = trigrams[e].0;
            let source = trigrams[e].1;
            assert(layout.has_keys(trigrams@[e as int].0));
            let mut keys: Vec<LayerKeyIndex> = Vec::new();
            push_one_shot_keys(&mut keys, layout, key.0);
            push_one_shot_keys(&mut keys, layout, key.1);
            push_one_shot_keys(&mut keys, layout, key.2);
            let ghost before = processed@;
            extend_windows(&mut processed, &keys, source);
            proof {
                assert(keys@ =~= one_shot_stream(layout, key));
                assert(trigrams@.take(e as int + 1).drop_last() =~= trigrams@.take(e as int));
                assert(trigrams@.take(e as int + 1).last() == trigrams@[e as int]);
                let added = tagged_windows(keys@, source);
                assert forall|i: int| 0 <= i < processed@.len() implies layout.has_keys(
                    (#[trigger] processed@[i]).0,
                ) by {
                    if i >= before.len() {
                        assert(processed@[i] == added[i - before.len()]);
                    }
                }
            }
            e += 1;
        }
        assert(trigrams@.take(trigrams@.len() as int) =~= trigrams@);
        processed
    }
}

} // verus!
