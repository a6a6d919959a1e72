//! The key triples of a sequence of key presses: every three presses in a row.

use crate::layout::{KeyTriple, LayerKeyIndex};
use vstd::prelude::*;

verus! {

/// The triples of neighbours of `path`, from left to right; none where the
/// path has fewer than three keys.
pub open spec fn windows(path: Seq<LayerKeyIndex>) -> Seq<KeyTriple> {
    if path.len() < 3 {
        Seq::empty()
    } else {
        Seq::new((path.len() - 2) as nat, |i: int| (path[i], path[i + 1], path[i + 2]))
    }
}

/// The windows of `path`, each paired with `tag`.
pub open spec fn tagged_windows<X>(path: Seq<LayerKeyIndex>, tag: X) -> Seq<(KeyTriple, X)> {
    windows(path).map_values(|t: KeyTriple| (t, tag))
}

/// The keys that are there, in order, without the gaps.
pub open spec fn present(slots: Seq<Option<LayerKeyIndex>>) -> Seq<LayerKeyIndex>
    decreases slots.len(),
{
    if slots.len() == 0 {
        Seq::empty()
    } else {
        match slots.last() {
            Some(key) => present(slots.drop_last()).push(key),
            None => present(slots.drop_last()),
        }
    }
}

/// Every key of `present(slots)` stands in one of the slots, and there are no
/// more keys than slots.
pub proof fn lemma_present_members(slots: Seq<Option<LayerKeyIndex>>)
    ensures
        present(slots).len() <= slots.len(),
        forall|i: int|
            0 <= i < present(slots).len() ==> exists|j: int|
                0 <= j < slots.len() && slots[j] == Some(#[trigger] present(slots)[i]),
    decreases slots.len(),
{
    if slots.len() > 0 {
        let before = slots.drop_last();
        lemma_present_members(before);
        assert forall|i: int| 0 <= i < present(slots).len() implies exists|j: int|
            0 <= j < slots.len() && slots[j] == Some(#[trigger] present(slots)[i]) by {
            if i < present(before).len() {
                let j = choose|j: int|
                    0 <= j < before.len() && before[j] == Some(present(before)[i]);
                assert(slots[j] == before[j]);
            } else {
                assert(slots[slots.len() - 1] == Some(present(slots)[i]));
            }
        }
    }
}

/// Appends to `out` the windows of `path`, each with `tag`.
pub fn extend_windows<X: Copy>(out: &mut Vec<(KeyTriple, X)>, path: &Vec<LayerKeyIndex>, tag: X)
    ensures
        final(out)@ == old(out)@ + tagged_windows(path@, tag),
{
    let ghost all = tagged_windows(path@, tag);
    if path.len() < 3 {
        assert(out@ =~= old(out)@ + all);
        return ;
    }
    let count: usize = path.len() - 2;
    let mut i: usize = 0;
    assert(out@ =~= old(out)@ + all.take(0));
    while i < count
        invariant
            i <= count,
            count + 2 == path.len(),
            all == tagged_windows(path@, tag),
            all.len() == count,
            out@ == old(out)@ + all.take(i as int),
        decreases count - i,
    {
        out.push(((path[i], path[i + 1], path[i + 2]), tag));
        assert(all.take(i as int + 1) =~= all.take(i as int).push(all[i as int]));
        assert(out@ =~= old(out)@ + all.take(i as int + 1));
        i += 1;
    }
    assert(all.take(count as int) =~= all);
}

} // verus!
