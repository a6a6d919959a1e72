//! Which one, two or three of the keys of a symbol can stand for it in a key
//! trigram: its base key and the modifiers that are held with it.
//!
//! Each choice comes with the power of the penalty factor for keys pressed at
//! once by which the weight is to be multiplied: 0 where the order of the
//! presses is certain, 1 for two modifiers in either order, 2 for three.

use crate::layout::{KeyTriple, LayerKeyIndex, MAX_MODIFIERS};
use vstd::prelude::*;

verus! {

/// One key with its penalty power.
pub type Single = (LayerKeyIndex, u8);

/// Two keys with their penalty power.
pub type Pair = ((LayerKeyIndex, LayerKeyIndex), u8);

/// Three keys with their penalty power.
pub type Triple = (KeyTriple, u8);

/// Room for the base key and three modifiers.
pub type Singles = tinyvec::ArrayVec<[(u16, u8); 4]>;

/// Room for the pairs of three modifiers.
pub type Pairs = tinyvec::ArrayVec<[((u16, u16), u8); 9]>;

/// Room for the triples of three modifiers.
pub type Triples = tinyvec::ArrayVec<[((u16, u16, u16), u8); 12]>;

/// Whether `key` is the base key or one of the modifiers.
pub open spec fn from_keys(
    key: LayerKeyIndex,
    base_key: LayerKeyIndex,
    modifiers: Seq<LayerKeyIndex>,
) -> bool {
    key == base_key || modifiers.contains(key)
}

/// Every key that can stand for the symbol alone: the base key, then each
/// modifier.
pub open spec fn take_one(base_key: LayerKeyIndex, modifiers: Seq<LayerKeyIndex>) -> Seq<Single> {
    seq![(base_key, 0u8)] + modifiers.map_values(|m: LayerKeyIndex| (m, 0u8))
}

/// The pairs of the modifier at `i` with each later modifier below `upto`
/// that differs from it, in both orders.
pub open spec fn two_partners(modifiers: Seq<LayerKeyIndex>, i: int, upto: int) -> Seq<Pair>
    decreases upto - i,
{
    if upto <= i + 1 {
        Seq::empty()
    } else {
        let before = two_partners(modifiers, i, upto - 1);
        let m1 = modifiers[i];
        let m2 = modifiers[upto - 1];
        if m1 != m2 {
            before.push(((m1, m2), 1u8)).push(((m2, m1), 1u8))
        } else {
            before
        }
    }
}

/// What the first `n` modifiers contribute to [`take_two`].
pub open spec fn take_two_upto(
    base_key: LayerKeyIndex,
    modifiers: Seq<LayerKeyIndex>,
    n: int,
) -> Seq<Pair>
    decreases n,
{
    if n <= 0 {
        Seq::empty()
    } else {
        take_two_upto(base_key, modifiers, n - 1).push(((modifiers[n - 1], base_key), 0u8))
            + two_partners(modifiers, n - 1, modifiers.len() as int)
    }
}

/// Every two keys that can stand for the symbol: for each modifier, the
/// modifier before the base key, then the modifier with each later modifier
/// that differs from it, in both orders.
pub open spec fn take_two(base_key: LayerKeyIndex, modifiers: Seq<LayerKeyIndex>) -> Seq<Pair> {
    take_two_upto(base_key, modifiers, modifiers.len() as int)
}

/// The six orders of three keys.
pub open spec fn six_orders(m1: LayerKeyIndex, m2: LayerKeyIndex, m3: LayerKeyIndex) -> Seq<
    Triple,
> {
    seq![
        ((m1, m2, m3), 2u8),
        ((m1, m3, m2), 2u8),
        ((m2, m1, m3), 2u8),
        ((m2, m3, m1), 2u8),
        ((m3, m1, m2), 2u8),
        ((m3, m2, m1), 2u8),
    ]
}

/// The six orders of the modifiers at `i` and `j` with each later modifier
/// below `upto` that differs from both.
pub open spec fn three_thirds(modifiers: Seq<LayerKeyIndex>, i: int, j: int, upto: int) -> Seq<
    Triple,
>
    decreases upto - j,
{
    if upto <= j + 1 {
        Seq::empty()
    } else {
        let before = three_thirds(modifiers, i, j, upto - 1);
        let m3 = modifiers[upto - 1];
        if modifiers[i] != m3 && modifiers[j] != m3 {
            before + six_orders(modifiers[i], modifiers[j], m3)
        } else {
            before
        }
    }
}

/// What the modifier at `i` contributes to [`take_three`] with the later
/// modifiers below `upto`.
pub open spec fn three_partners(
    base_key: LayerKeyIndex,
    modifiers: Seq<LayerKeyIndex>,
    i: int,
    upto: int,
) -> Seq<Triple>
    decreases upto - i,
{
    if upto <= i + 1 {
        Seq::empty()
    } else {
        let before = three_partners(base_key, modifiers, i, upto - 1);
        let m1 = modifiers[i];
        let m2 = modifiers[upto - 1];
        if m1 != m2 {
            before.push(((m1, m2, base_key), 1u8)).push(((m2, m1, base_key), 1u8))
                + three_thirds(modifiers, i, upto - 1, modifiers.len() as int)
        } else {
            before
        }
    }
}

/// What the first `n` modifiers contribute to [`take_three`].
pub open spec fn take_three_upto(
    base_key: LayerKeyIndex,
    modifiers: Seq<LayerKeyIndex>,
    n: int,
) -> Seq<Triple>
    decreases n,
{
    if n <= 0 {
        Seq::empty()
    } else {
        take_three_upto(base_key, modifiers, n - 1) + three_partners(
            base_key,
            modifiers,
            n - 1,
            modifiers.len() as int,
        )
    }
}

/// Every three keys that can stand for the symbol: for each two modifiers
/// that differ, both orders of them before the base key, and with each later
/// modifier that differs from both, the six orders of the three.
pub open spec fn take_three(base_key: LayerKeyIndex, modifiers: Seq<LayerKeyIndex>) -> Seq<
    Triple,
> {
    take_three_upto(base_key, modifiers, modifiers.len() as int)
}

/// `tinyvec::ArrayVec`, a vector of fixed capacity that lives without the
/// heap. Nothing is known of a value of it but what [`single_items`],
/// [`pair_items`] and [`triple_items`] say.
#[verifier::external_type_specification]
#[verifier::external_body]
#[verifier::reject_recursive_types(A)]
pub struct ExArrayVec<A>(tinyvec::ArrayVec<A>);

/// The items of an `ArrayVec` of single keys, in order.
pub uninterp spec fn single_items(v: tinyvec::ArrayVec<[(u16, u8); 4]>) -> Seq<(u16, u8)>;

/// The items of an `ArrayVec` of pairs of keys, in order.
pub uninterp spec fn pair_items(v: tinyvec::ArrayVec<[((u16, u16), u8); 9]>) -> Seq<
    ((u16, u16), u8),
>;

/// The items of an `ArrayVec` of key triples, in order.
pub uninterp spec fn triple_items(v: tinyvec::ArrayVec<[((u16, u16, u16), u8); 12]>) -> Seq<
    ((u16, u16, u16), u8),
>;

/// Calls `ArrayVec::new`: the new vector has no items.
#[verifier::external_body]
fn singles_new() -> (v: tinyvec::ArrayVec<[(u16, u8); 4]>)
    ensures
        single_items(v).len() == 0,
{
    tinyvec::ArrayVec::new()
}

/// Calls `ArrayVec::push`, which panics on a full vector: below its capacity
/// of 4 the item is appended.
#[verifier::external_body]
fn singles_push(v: &mut tinyvec::ArrayVec<[(u16, u8); 4]>, item: (u16, u8))
    requires
        single_items(*old(v)).len() < 4,
    ensures
        single_items(*final(v)) == single_items(*old(v)).push(item),
{
    v.push(item)
}

/// Calls `ArrayVec::as_slice`: the items, in order.
#[verifier::external_body]
pub(crate) fn singles_as_slice(v: &tinyvec::ArrayVec<[(u16, u8); 4]>) -> (items: &[(u16, u8)])
    ensures
        items@ == single_items(*v),
{
    v.as_slice()
}

/// Calls `ArrayVec::new`: the new vector has no items.
#[verifier::external_body]
fn pairs_new() -> (v: tinyvec::ArrayVec<[((u16, u16), u8); 9]>)
    ensures
        pair_items(v).len() == 0,
{
    tinyvec::ArrayVec::new()
}

/// Calls `ArrayVec::push`, which panics on a full vector: below its capacity
/// of 9 the item is appended.
#[verifier::external_body]
fn pairs_push(v: &mut tinyvec::ArrayVec<[((u16, u16), u8); 9]>, item: ((u16, u16), u8))
    requires
        pair_items(*old(v)).len() < 9,
    ensures
        pair_items(*final(v)) == pair_items(*old(v)).push(item),
{
    v.push(item)
}

/// Calls `ArrayVec::as_slice`: the items, in order.
#[verifier::external_body]
pub(crate) fn pairs_as_slice(v: &tinyvec::ArrayVec<[((u16, u16), u8); 9]>) -> (items: &[(
    (u16, u16),
    u8,
)])
    ensures
        items@ == pair_items(*v),
{
    v.as_slice()
}

/// Calls `ArrayVec::new`: the new vector has no items.
#[verifier::external_body]
fn triples_new() -> (v: tinyvec::ArrayVec<[((u16, u16, u16), u8); 12]>)
    ensures
        triple_items(v).len() == 0,
{
    tinyvec::ArrayVec::new()
}

/// Calls `ArrayVec::push`, which panics on a full vector: below its capacity
/// of 12 the item is appended.
#[verifier::external_body]
fn triples_push(
    v: &mut tinyvec::ArrayVec<[((u16, u16, u16), u8); 12]>,
    item: ((u16, u16, u16), u8),
)
    requires
        triple_items(*old(v)).len() < 12,
    ensures
        triple_items(*final(v)) == triple_items(*old(v)).push(item),
{
    v.push(item)
}

/// Calls `ArrayVec::as_slice`: the items, in order.
#[verifier::external_body]
pub(crate) fn triples_as_slice(v: &tinyvec::ArrayVec<[((u16, u16, u16), u8); 12]>) -> (items: &[(
    (u16, u16, u16),
    u8,
)])
    ensures
        items@ == triple_items(*v),
{
    v.as_slice()
}

/// Computes [`take_one`].
pub fn take_one_layerkey(base_key: LayerKeyIndex, modifiers: &[LayerKeyIndex]) -> (res: Singles)
    requires
        modifiers@.len() <= MAX_MODIFIERS,
    ensures
        single_items(res) == take_one(base_key, modifiers@),
        single_items(res).len() == modifiers@.len() + 1,
        forall|i: int|
            0 <= i < single_items(res).len() ==> from_keys(
                (#[trigger] single_items(res)[i]).0,
                base_key,
                modifiers@,
            ),
{
    let mut res = singles_new();
    singles_push(&mut res, (base_key, 0u8));
    let mut i: usize = 0;
    assert(single_items(res) =~= take_one(base_key, modifiers@.take(0)));
    while i < modifiers.len()
        invariant
            i <= modifiers@.len() <= MAX_MODIFIERS,
            single_items(res) == take_one(base_key, modifiers@.take(i as int)),
        decreases modifiers@.len() - i,
    {
        singles_push(&mut res, (modifiers[i], 0u8));
        assert(single_items(res) =~= take_one(base_key, modifiers@.take(i as int + 1)));
        i += 1;
    }
    assert(modifiers@.take(modifiers@.len() as int) =~= modifiers@);
    assert forall|i: int| 0 <= i < single_items(res).len() implies from_keys(
        (#[trigger] single_items(res)[i]).0,
        base_key,
        modifiers@,
    ) by {
        if i > 0 {
            assert(single_items(res)[i].0 == modifiers@[i - 1]);
        }
    }
    res
}

/// The most pairs that the first `i` of three modifiers contribute.
spec fn pairs_room(i: int) -> int {
    if i <= 0 {
        0
    } else if i == 1 {
        5
    } else if i == 2 {
        8
    } else {
        9
    }
}

/// Computes [`take_two`].
pub fn take_two_layerkey(base_key: LayerKeyIndex, modifiers: &[LayerKeyIndex]) -> (res: Pairs)
    requires
        modifiers@.len() <= MAX_MODIFIERS,
    ensures
        pair_items(res) == take_two(base_key, modifiers@),
        pair_items(res).len() <= 9,
        forall|i: int|
            0 <= i < pair_items(res).len() ==> from_keys(
                (#[trigger] pair_items(res)[i]).0.0,
                base_key,
                modifiers@,
            ) && from_keys(pair_items(res)[i].0.1, base_key, modifiers@),
{
    let mut res = pairs_new();
    let n: usize = modifiers.len();
    let mut i: usize = 0;
    assert(pair_items(res) =~= take_two_upto(base_key, modifiers@, 0));
    while i < n
        invariant
            i <= n <= MAX_MODIFIERS,
            n == modifiers@.len(),
            pair_items(res) == take_two_upto(base_key, modifiers@, i as int),
            pair_items(res).len() <= pairs_room(i as int),
            forall|x: int|
                0 <= x < pair_items(res).len() ==> from_keys(
                    (#[trigger] pair_items(res)[x]).0.0,
                    base_key,
                    modifiers@,
                ) && from_keys(pair_items(res)[x].0.1, base_key, modifiers@),
        decreases n - i,
    {
        let m1 = modifiers[i];
        pairs_push(&mut res, ((m1, base_key), 0u8));
        let ghost first = pair_items(res);
        let mut j: usize = i + 1;
        assert(pair_items(res) =~= first + two_partners(modifiers@, i as int, j as int));
        while j < n
            invariant
                i < j <= n <= MAX_MODIFIERS,
                n == modifiers@.len(),
                m1 == modifiers@[i as int],
                pair_items(res) == first + two_partners(modifiers@, i as int, j as int),
                pair_items(res).len() <= pairs_room(i as int) + 1 + 2 * (j - i - 1),
                forall|x: int|
                    0 <= x < pair_items(res).len() ==> from_keys(
                        (#[trigger] pair_items(res)[x]).0.0,
                        base_key,
                        modifiers@,
                    ) && from_keys(pair_items(res)[x].0.1, base_key, modifiers@),
            decreases n - j,
        {
            let m2 = modifiers[j];
            if m1 != m2 {
                pairs_push(&mut res, ((m1, m2), 1u8));
                pairs_push(&mut res, ((m2, m1), 1u8));
            }
            assert(pair_items(res) =~= first + two_partners(modifiers@, i as int, j as int + 1));
            j += 1;
        }
        i += 1;
    }
    res
}

/// Whether the three keys are each the base key or one of the modifiers.
pub open spec fn triple_from_keys(
    t: KeyTriple,
    base_key: LayerKeyIndex,
    modifiers: Seq<LayerKeyIndex>,
) -> bool {
    from_keys(t.0, base_key, modifiers) && from_keys(t.1, base_key, modifiers) && from_keys(
        t.2,
        base_key,
        modifiers,
    )
}

/// Of `rows * d` numbers, the quotient by `d` lies below `rows` and the
/// remainder below `d`.
pub proof fn lemma_div_below(n: int, d: int, rows: int)
    requires
        0 <= n < rows * d,
        0 < d,
    ensures
        0 <= n / d < rows,
        0 <= n % d < d,
{
    assert(rows * d == d * rows) by (nonlinear_arith);
    vstd::arithmetic::div_mod::lemma_multiply_divide_lt(n, d, rows);
    vstd::arithmetic::div_mod::lemma_mod_bound(n, d);
    vstd::arithmetic::div_mod::lemma_div_pos_is_pos(n, d);
}

/// The most triples that three modifiers contribute before the modifier at
/// `i` is paired with the one at `j`.
spec fn triples_room(i: int, j: int) -> int {
    if i <= 0 {
        if j <= 1 {
            0
        } else if j == 2 {
            8
        } else {
            10
        }
    } else if i == 1 {
        if j <= 2 {
            10
        } else {
            12
        }
    } else {
        12
    }
}

fn push_six_orders(res: &mut Triples, m1: LayerKeyIndex, m2: LayerKeyIndex, m3: LayerKeyIndex)
    requires
        triple_items(*old(res)).len() + 6 <= 12,
    ensures
        triple_items(*final(res)) == triple_items(*old(res)) + six_orders(m1, m2, m3),
{
    triples_push(res, ((m1, m2, m3), 2u8));
    triples_push(res, ((m1, m3, m2), 2u8));
    triples_push(res, ((m2, m1, m3), 2u8));
    triples_push(res, ((m2, m3, m1), 2u8));
    triples_push(res, ((m3, m1, m2), 2u8));
    triples_push(res, ((m3, m2, m1), 2u8));
    assert(triple_items(*res) =~= triple_items(*old(res)) + six_orders(m1, m2, m3));
}

/// Computes [`take_three`].
pub fn take_three_layerkey(base_key: LayerKeyIndex, modifiers: &[LayerKeyIndex]) -> (res: Triples)
    requires
        modifiers@.len() <= MAX_MODIFIERS,
    ensures
        triple_items(res) == take_three(base_key, modifiers@),
        triple_items(res).len() <= 12,
        forall|i: int|
            0 <= i < triple_items(res).len() ==> triple_from_keys(
                (#[trigger] triple_items(res)[i]).0,
                base_key,
                modifiers@,
            ),
{
    let mut res = triples_new();
    let n: usize = modifiers.len();
    let mut i: usize = 0;
    assert(triple_items(res) =~= take_three_upto(base_key, modifiers@, 0));
    while i < n
        invariant
            i <= n <= MAX_MODIFIERS,
            n == modifiers@.len(),
            triple_items(res) == take_three_upto(base_key, modifiers@, i as int),
            triple_items(res).len() <= triples_room(i as int, i as int + 1),
            forall|x: int|
                0 <= x < triple_items(res).len() ==> triple_from_keys(
                    (#[trigger] triple_items(res)[x]).0,
                    base_key,
                    modifiers@,
                ),
        decreases n - i,
    {
        let m1 = modifiers[i];
        let ghost first = triple_items(res);
        let mut j: usize = i + 1;
        assert(triple_items(res) =~= first + three_partners(
            base_key,
            modifiers@,
            i as int,
            j as int,
        ));
        while j < n
            invariant
                i < j <= n <= MAX_MODIFIERS,
                n == modifiers@.len(),
                m1 == modifiers@[i as int],
                triple_items(res) == first + three_partners(
                    base_key,
                    modifiers@,
                    i as int,
                    j as int,
                ),
                triple_items(res).len() <= triples_room(i as int, j as int),
                forall|x: int|
                    0 <= x < triple_items(res).len() ==> triple_from_keys(
                        (#[trigger] triple_items(res)[x]).0,
                        base_key,
                        modifiers@,
                    ),
            decreases n - j,
        {
            let m2 = modifiers[j];
            if m1 != m2 {
                triples_push(&mut res, ((m1, m2, base_key), 1u8));
                triples_push(&mut res, ((m2, m1, base_key), 1u8));
                let ghost second = triple_items(res);
                let mut k: usize = j + 1;
                assert(triple_items(res) =~= second + three_thirds(
                    modifiers@,
                    i as int,
                    j as int,
                    k as int,
                ));
                while k < n
                    invariant
                        i < j < k <= n <= MAX_MODIFIERS,
                        n == modifiers@.len(),
                        m1 == modifiers@[i as int],
                        m2 == modifiers@[j as int],
                        triple_items(res) == second + three_thirds(
                            modifiers@,
                            i as int,
                            j as int,
                            k as int,
                        ),
                        triple_items(res).len() <= triples_room(i as int, j as int) + 2 + 6 * (k
                            - j - 1),
                        forall|x: int|
                            0 <= x < triple_items(res).len() ==> triple_from_keys(
                                (#[trigger] triple_items(res)[x]).0,
                                base_key,
                                modifiers@,
                            ),
                    decreases n - k,
                {
                    let m3 = modifiers[k];
                    if m1 != m3 && m2 != m3 {
                        push_six_orders(&mut res, m1, m2, m3);
                    }
                    assert(triple_items(res) =~= second + three_thirds(
                        modifiers@,
                        i as int,
                        j as int,
                        k as int + 1,
                    ));
                    k += 1;
                }
            }
            assert(triple_items(res) =~= first + three_partners(
                base_key,
                modifiers@,
                i as int,
                j as int + 1,
            ));
            j += 1;
        }
        i += 1;
    }
    res
}

/// Every pair of [`two_partners`] has penalty power 1.
pub proof fn lemma_two_partners_penalty(modifiers: Seq<LayerKeyIndex>, i: int, upto: int)
    ensures
        forall|x: int|
            0 <= x < two_partners(modifiers, i, upto).len() ==> (#[trigger] two_partners(
                modifiers,
                i,
                upto,
            )[x]).1 == 1,
    decreases upto - i,
{
    if upto > i + 1 {
        let before = two_partners(modifiers, i, upto - 1);
        lemma_two_partners_penalty(modifiers, i, upto - 1);
        assert forall|x: int| 0 <= x < two_partners(modifiers, i, upto).len() implies (
        #[trigger] two_partners(modifiers, i, upto)[x]).1 == 1 by {
            if x < before.len() {
                assert(two_partners(modifiers, i, upto)[x] == before[x]);
            }
        }
    }
}

/// Every pair of [`take_two`] has penalty power 0 or 1.
pub proof fn lemma_take_two_penalty(
    base_key: LayerKeyIndex,
    modifiers: Seq<LayerKeyIndex>,
    n: int,
)
    ensures
        forall|x: int|
            0 <= x < take_two_upto(base_key, modifiers, n).len() ==> (#[trigger] take_two_upto(
                base_key,
                modifiers,
                n,
            )[x]).1 <= 1,
    decreases n,
{
    if n > 0 {
        let before = take_two_upto(base_key, modifiers, n - 1);
        let partners = two_partners(modifiers, n - 1, modifiers.len() as int);
        lemma_take_two_penalty(base_key, modifiers, n - 1);
        lemma_two_partners_penalty(modifiers, n - 1, modifiers.len() as int);
        assert forall|x: int| 0 <= x < take_two_upto(base_key, modifiers, n).len() implies (
        #[trigger] take_two_upto(base_key, modifiers, n)[x]).1 <= 1 by {
            if x < before.len() {
                assert(take_two_upto(base_key, modifiers, n)[x] == before[x]);
            } else if x > before.len() {
                assert(take_two_upto(base_key, modifiers, n)[x] == partners[x - before.len()
                    - 1]);
            }
        }
    }
}

/// Every triple of [`three_thirds`] has penalty power 2.
pub proof fn lemma_three_thirds_penalty(modifiers: Seq<LayerKeyIndex>, i: int, j: int, upto: int)
    ensures
        forall|x: int|
            0 <= x < three_thirds(modifiers, i, j, upto).len() ==> (#[trigger] three_thirds(
                modifiers,
                i,
                j,
                upto,
            )[x]).1 == 2,
    decreases upto - j,
{
    if upto > j + 1 {
        let before = three_thirds(modifiers, i, j, upto - 1);
        let six = six_orders(modifiers[i], modifiers[j], modifiers[upto - 1]);
        lemma_three_thirds_penalty(modifiers, i, j, upto - 1);
        assert forall|x: int| 0 <= x < three_thirds(modifiers, i, j, upto).len() implies (
        #[trigger] three_thirds(modifiers, i, j, upto)[x]).1 == 2 by {
            if x < before.len() {
                assert(three_thirds(modifiers, i, j, upto)[x] == before[x]);
            } else {
                assert(three_thirds(modifiers, i, j, upto)[x] == six[x - before.len()]);
            }
        }
    }
}

/// Every triple of [`three_partners`] has penalty power 1 or 2.
pub proof fn lemma_three_partners_penalty(
    base_key: LayerKeyIndex,
    modifiers: Seq<LayerKeyIndex>,
    i: int,
    upto: int,
)
    ensures
        forall|x: int|
            0 <= x < three_partners(base_key, modifiers, i, upto).len() ==> (
            #[trigger] three_partners(base_key, modifiers, i, upto)[x]).1 <= 2,
    decreases upto - i,
{
    if upto > i + 1 {
        let before = three_partners(base_key, modifiers, i, upto - 1);
        let thirds = three_thirds(modifiers, i, upto - 1, modifiers.len() as int);
        lemma_three_partners_penalty(base_key, modifiers, i, upto - 1);
        lemma_three_thirds_penalty(modifiers, i, upto - 1, modifiers.len() as int);
        assert forall|x: int|
            0 <= x < three_partners(base_key, modifiers, i, upto).len() implies (
        #[trigger] three_partners(base_key, modifiers, i, upto)[x]).1 <= 2 by {
            if x < before.len() {
                assert(three_partners(base_key, modifiers, i, upto)[x] == before[x]);
            } else if x >= before.len() + 2 {
                assert(three_partners(base_key, modifiers, i, upto)[x] == thirds[x - before.len()
                    - 2]);
            }
        }
    }
}

/// Every triple of [`take_three`] has penalty power 1 or 2.
pub proof fn lemma_take_three_penalty(
    base_key: LayerKeyIndex,
    modifiers: Seq<LayerKeyIndex>,
    n: int,
)
    ensures
        forall|x: int|
            0 <= x < take_three_upto(base_key, modifiers, n).len() ==> (
            #[trigger] take_three_upto(base_key, modifiers, n)[x]).1 <= 2,
    decreases n,
{
    if n > 0 {
        let before = take_three_upto(base_key, modifiers, n - 1);
        let partners = three_partners(base_key, modifiers, n - 1, modifiers.len() as int);
        lemma_take_three_penalty(base_key, modifiers, n - 1);
        lemma_three_partners_penalty(base_key, modifiers, n - 1, modifiers.len() as int);
        assert forall|x: int| 0 <= x < take_three_upto(base_key, modifiers, n).len() implies (
        #[trigger] take_three_upto(base_key, modifiers, n)[x]).1 <= 2 by {
            if x < before.len() {
                assert(take_three_upto(base_key, modifiers, n)[x] == before[x]);
            } else {
                assert(take_three_upto(base_key, modifiers, n)[x] == partners[x - before.len()]);
            }
        }
    }
}

} // verus!
