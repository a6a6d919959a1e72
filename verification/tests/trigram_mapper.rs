use layout_evaluation::accumulator::{TrigramIndices, Weight};
use layout_evaluation::common::{take_one_layerkey, take_three_layerkey, take_two_layerkey};
use layout_evaluation::layout::{LayerKey, LayerModifierType, LayerModifiers, Layout};
use layout_evaluation::lock_layers::lock_targets;
use layout_evaluation::one_shot_layers::{map_trigrams, Trigrams};
use layout_evaluation::trigram_mapper::{OnDemandTrigramMapper, SplitModifiersConfig};

type Triple = (u16, u16, u16);

fn plain(symbol: char, base: u16) -> LayerKey {
    LayerKey {
        symbol,
        layer: 0,
        is_modifier: LayerModifierType::Unmodified,
        modifiers: LayerModifiers::Unmodified,
        base,
    }
}

fn modifier(symbol: char, kind: LayerModifierType, base: u16) -> LayerKey {
    LayerKey { symbol, layer: 0, is_modifier: kind, modifiers: LayerModifiers::Unmodified, base }
}

fn upper(symbol: char, layer: u8, modifiers: LayerModifiers, base: u16) -> LayerKey {
    LayerKey { symbol, layer, is_modifier: LayerModifierType::Unmodified, modifiers, base }
}

fn symbols_of(keys: &[LayerKey]) -> Vec<(char, u16)> {
    keys.iter().enumerate().map(|(i, k)| (k.symbol, i as u16)).collect()
}

/// a b space shift A B mod3 C c; A, B need shift, C needs shift and mod3.
fn hold_layout() -> Layout {
    let keys = vec![
        plain('a', 0),
        plain('b', 1),
        plain(' ', 2),
        modifier('\u{21e7}', LayerModifierType::Hold, 3),
        upper('A', 1, LayerModifiers::Hold(vec![3]), 0),
        upper('B', 1, LayerModifiers::Hold(vec![3]), 1),
        modifier('\u{21e9}', LayerModifierType::Hold, 6),
        upper('C', 2, LayerModifiers::Hold(vec![3, 6]), 8),
        plain('c', 8),
    ];
    let mut symbols = symbols_of(&keys);
    symbols.push(('q', 0));
    Layout::new(keys, symbols).unwrap()
}

/// a b one-shot A B; A and B need the one-shot key.
fn one_shot_layout() -> Layout {
    let keys = vec![
        plain('a', 0),
        plain('b', 1),
        modifier('^', LayerModifierType::OneShot, 2),
        upper('A', 1, LayerModifiers::OneShot(vec![2]), 0),
        upper('B', 1, LayerModifiers::OneShot(vec![2]), 1),
        plain('\n', 5),
    ];
    let symbols = symbols_of(&keys);
    Layout::new(keys, symbols).unwrap()
}

/// a b space lock x y X m1 m2 Y Z W; x, y lie on a locked layer, X is held
/// with m1 or m2, Y is held without modifiers, Z is held with m1, and W is
/// held with m2 on a layer of its own.
fn lock_layout() -> Layout {
    let keys = vec![
        plain('a', 0),
        plain('b', 1),
        plain(' ', 2),
        modifier('\u{21ea}', LayerModifierType::Lock, 3),
        upper('x', 2, LayerModifiers::Lock(vec![3]), 0),
        upper('y', 2, LayerModifiers::Lock(vec![3]), 1),
        upper('X', 1, LayerModifiers::Hold(vec![7, 8]), 0),
        modifier('\u{21e7}', LayerModifierType::Hold, 7),
        modifier('\u{21e9}', LayerModifierType::Hold, 8),
        upper('Y', 1, LayerModifiers::Hold(vec![]), 1),
        upper('Z', 1, LayerModifiers::Hold(vec![7]), 1),
        upper('W', 3, LayerModifiers::Hold(vec![8]), 0),
    ];
    let symbols = symbols_of(&keys);
    Layout::new(keys, symbols).unwrap()
}

fn plain_layout() -> Layout {
    let keys = vec![plain('a', 0), plain('b', 1), plain('c', 2)];
    let symbols = symbols_of(&keys);
    Layout::new(keys, symbols).unwrap()
}

fn mapper(enabled: bool) -> OnDemandTrigramMapper {
    OnDemandTrigramMapper::new(SplitModifiersConfig { enabled })
}

fn entries(acc: &TrigramIndices) -> Vec<(Triple, Vec<Weight>)> {
    (0..acc.len()).map(|i| (acc.key_at(i), acc.weights_at(i).clone())).collect()
}

fn share(source: usize, penalty: u8, paths: u64) -> Weight {
    Weight { source, penalty, paths }
}

#[test]
fn take_one_gives_base_then_modifiers() {
    let res = take_one_layerkey(1, &[5, 7]);
    assert_eq!(res.as_slice(), &[(1, 0), (5, 0), (7, 0)]);
}

#[test]
fn take_one_without_modifiers_is_the_base_key() {
    let res = take_one_layerkey(9, &[]);
    assert_eq!(res.as_slice(), &[(9, 0)]);
}

#[test]
fn take_one_with_three_modifiers_fills_the_vector() {
    let res = take_one_layerkey(1, &[5, 7, 9]);
    assert_eq!(res.as_slice(), &[(1, 0), (5, 0), (7, 0), (9, 0)]);
}

#[test]
fn take_two_pairs_modifier_with_base_and_modifiers_in_both_orders() {
    let res = take_two_layerkey(1, &[5, 7]);
    assert_eq!(res.as_slice(), &[((5, 1), 0), ((5, 7), 1), ((7, 5), 1), ((7, 1), 0)]);
}

#[test]
fn take_two_with_one_modifier() {
    let res = take_two_layerkey(1, &[5]);
    assert_eq!(res.as_slice(), &[((5, 1), 0)]);
}

#[test]
fn take_two_without_modifiers_is_empty() {
    let res = take_two_layerkey(1, &[]);
    assert!(res.as_slice().is_empty());
}

#[test]
fn take_two_does_not_pair_a_modifier_with_itself() {
    let res = take_two_layerkey(1, &[5, 5]);
    assert_eq!(res.as_slice(), &[((5, 1), 0), ((5, 1), 0)]);
}

#[test]
fn take_two_with_three_modifiers_fills_the_vector() {
    let res = take_two_layerkey(1, &[5, 7, 9]);
    assert_eq!(
        res.as_slice(),
        &[
            ((5, 1), 0),
            ((5, 7), 1),
            ((7, 5), 1),
            ((5, 9), 1),
            ((9, 5), 1),
            ((7, 1), 0),
            ((7, 9), 1),
            ((9, 7), 1),
            ((9, 1), 0),
        ]
    );
}

#[test]
fn take_three_with_two_modifiers_gives_both_orders() {
    let res = take_three_layerkey(1, &[5, 7]);
    assert_eq!(res.as_slice(), &[((5, 7, 1), 1), ((7, 5, 1), 1)]);
}

#[test]
fn take_three_with_fewer_than_two_modifiers_is_empty() {
    assert!(take_three_layerkey(1, &[]).as_slice().is_empty());
    assert!(take_three_layerkey(1, &[5]).as_slice().is_empty());
}

#[test]
fn take_three_with_equal_modifiers_is_empty() {
    assert!(take_three_layerkey(1, &[5, 5]).as_slice().is_empty());
}

#[test]
fn take_three_with_three_modifiers_gives_six_orders_with_penalty_squared() {
    let res = take_three_layerkey(1, &[5, 7, 9]);
    assert_eq!(
        res.as_slice(),
        &[
            ((5, 7, 1), 1),
            ((7, 5, 1), 1),
            ((5, 7, 9), 2),
            ((5, 9, 7), 2),
            ((7, 5, 9), 2),
            ((7, 9, 5), 2),
            ((9, 5, 7), 2),
            ((9, 7, 5), 2),
            ((5, 9, 1), 1),
            ((9, 5, 1), 1),
            ((7, 9, 1), 1),
            ((9, 7, 1), 1),
        ]
    );
}

#[test]
fn layout_new_accepts_valid_tables_and_sets_flags() {
    let layout = hold_layout();
    assert!(layout.has_hold_layers());
    assert!(!layout.has_one_shot_layers());
    assert!(!layout.has_lock_layers());
    let layout = one_shot_layout();
    assert!(layout.has_one_shot_layers());
    assert!(!layout.has_hold_layers());
    let layout = lock_layout();
    assert!(layout.has_lock_layers());
    assert!(layout.has_hold_layers());
    let layout = plain_layout();
    assert!(!layout.has_lock_layers() && !layout.has_hold_layers());
    assert!(!layout.has_one_shot_layers());
}

#[test]
fn a_layout_built_by_hand_is_checked() {
    let mut layout = hold_layout();
    assert!(layout.is_valid());
    layout.lock_layers = true;
    assert!(layout.is_valid());
    layout.layerkeys[0].base = 99;
    assert!(!layout.is_valid());
}

#[test]
fn layout_new_rejects_a_base_key_outside_the_table() {
    let keys = vec![plain('a', 1)];
    assert!(Layout::new(keys, vec![]).is_none());
}

#[test]
fn layout_new_rejects_a_modifier_outside_the_table() {
    let keys = vec![plain('a', 0), upper('A', 1, LayerModifiers::Hold(vec![2]), 0)];
    assert!(Layout::new(keys, vec![]).is_none());
}

#[test]
fn layout_new_rejects_more_than_three_modifiers() {
    let keys = vec![plain('a', 0), upper('A', 1, LayerModifiers::Hold(vec![0, 0, 0, 0]), 0)];
    assert!(Layout::new(keys, vec![]).is_none());
    let keys = vec![plain('a', 0), upper('A', 1, LayerModifiers::Hold(vec![0, 0, 0]), 0)];
    assert!(Layout::new(keys, vec![]).is_some());
}

#[test]
fn layout_new_rejects_a_symbol_of_a_key_outside_the_table() {
    let keys = vec![plain('a', 0)];
    assert!(Layout::new(keys, vec![('a', 1)]).is_none());
}

#[test]
fn symbol_lookup_takes_the_first_entry() {
    let keys = vec![plain('a', 0), plain('a', 1)];
    let layout = Layout::new(keys, vec![('a', 1), ('a', 0)]).unwrap();
    assert_eq!(layout.get_layerkey_index_for_symbol('a'), Some(1));
    assert_eq!(layout.get_layerkey_index_for_symbol('b'), None);
}

#[test]
fn resolve_modifiers_gives_base_and_modifiers() {
    let layout = hold_layout();
    let (base, modifiers) = layout.resolve_modifiers(7);
    assert_eq!(base, 8);
    assert!(matches!(modifiers, LayerModifiers::Hold(m) if m == &vec![3, 6]));
    assert_eq!(layout.get_base_layerkey_index(4), 0);
    assert_eq!(layout.get_layerkey(4).symbol, 'A');
}

#[test]
fn line_break_exclusion_drops_break_before_text_and_keeps_double_break() {
    let layout = one_shot_layout();
    let trigrams = Trigrams { grams: vec![('\n', 'a', 'b'), ('a', '\n', '\n')] };
    let (mapped, lost) = map_trigrams(&trigrams, &layout, true);
    assert_eq!(mapped, vec![((0, 5, 5), 1)]);
    assert!(lost.is_empty());
}

#[test]
fn line_breaks_are_kept_without_exclusion() {
    let layout = one_shot_layout();
    let trigrams = Trigrams { grams: vec![('\n', 'a', 'b'), ('a', '\n', '\n'), ('a', '\n', 'b')] };
    let (mapped, lost) = map_trigrams(&trigrams, &layout, false);
    assert_eq!(mapped, vec![((5, 0, 1), 0), ((0, 5, 5), 1), ((0, 5, 1), 2)]);
    assert!(lost.is_empty());
    let (mapped, _) = map_trigrams(&trigrams, &layout, true);
    assert_eq!(mapped, vec![((0, 5, 5), 1)]);
}

#[test]
fn a_missing_character_loses_the_whole_trigram() {
    let layout = plain_layout();
    let trigrams = Trigrams {
        grams: vec![('a', 'b', 'c'), ('z', 'b', 'c'), ('a', 'z', 'c'), ('a', 'b', 'z'), ('c', 'b', 'a')],
    };
    let (mapped, lost) = map_trigrams(&trigrams, &layout, true);
    assert_eq!(mapped, vec![((0, 1, 2), 0), ((2, 1, 0), 4)]);
    assert_eq!(lost, vec![1, 2, 3]);
}

#[test]
fn an_excluded_trigram_is_not_counted_as_lost() {
    let layout = plain_layout();
    let trigrams = Trigrams { grams: vec![('\n', 'a', 'b')] };
    let (mapped, lost) = map_trigrams(&trigrams, &layout, true);
    assert!(mapped.is_empty());
    assert!(lost.is_empty());
    let (mapped, lost) = map_trigrams(&trigrams, &layout, false);
    assert!(mapped.is_empty());
    assert_eq!(lost, vec![0]);
}

#[test]
fn full_coverage_loses_nothing() {
    let layout = plain_layout();
    let trigrams = Trigrams { grams: vec![('a', 'b', 'c'), ('c', 'c', 'a'), ('b', 'a', 'b')] };
    let (result, lost) = mapper(true).layerkey_indices(&trigrams, &layout, true);
    assert!(lost.is_empty());
    assert_eq!(result.len(), 3);
}

#[test]
fn one_shot_trigram_gives_four_windows_with_the_whole_weight() {
    let layout = one_shot_layout();
    let processed = mapper(true).process_one_shot_layers(&vec![((3, 4, 3), 7)], &layout);
    assert_eq!(processed, vec![((2, 0, 2), 7), ((0, 2, 1), 7), ((2, 1, 2), 7), ((1, 2, 0), 7)]);
}

#[test]
fn one_shot_key_in_the_middle_gives_two_windows() {
    let layout = one_shot_layout();
    let processed = mapper(true).process_one_shot_layers(&vec![((0, 3, 1), 0)], &layout);
    assert_eq!(processed, vec![((0, 2, 0), 0), ((2, 0, 1), 0)]);
}

#[test]
fn one_shot_pass_keeps_other_trigrams_and_their_order() {
    let layout = one_shot_layout();
    let input = vec![((0, 1, 0), 0), ((1, 1, 0), 1), ((0, 3, 1), 2), ((1, 0, 1), 3)];
    let processed = mapper(true).process_one_shot_layers(&input, &layout);
    assert_eq!(
        processed,
        vec![((0, 1, 0), 0), ((1, 1, 0), 1), ((0, 2, 0), 2), ((2, 0, 1), 2), ((1, 0, 1), 3)]
    );
}

#[test]
fn one_shot_pass_is_the_identity_without_one_shot_keys() {
    let layout = hold_layout();
    let input = vec![((0, 1, 0), 0), ((4, 4, 1), 1), ((7, 0, 1), 2)];
    let processed = mapper(true).process_one_shot_layers(&input, &layout);
    assert_eq!(processed, input);
}

#[test]
fn hold_pass_offers_modifier_or_base_for_a_held_key() {
    let layout = hold_layout();
    let resolved = mapper(true).process_hold_layers(&vec![((4, 1, 0), 5)], &layout);
    assert_eq!(
        entries(&resolved),
        vec![
            ((0, 1, 0), vec![share(5, 0, 1)]),
            ((3, 1, 0), vec![share(5, 0, 1)]),
            ((3, 0, 1), vec![share(5, 0, 1)]),
        ]
    );
}

#[test]
fn hold_pass_drops_repeated_keys_and_sums_equal_triples() {
    let layout = hold_layout();
    let resolved = mapper(true).process_hold_layers(&vec![((4, 4, 1), 0)], &layout);
    assert_eq!(
        entries(&resolved),
        vec![
            ((0, 3, 1), vec![share(0, 0, 1)]),
            ((3, 0, 1), vec![share(0, 0, 1), share(0, 0, 1)]),
            ((3, 0, 3), vec![share(0, 0, 1)]),
            ((0, 3, 0), vec![share(0, 0, 1)]),
        ]
    );
    for (key, _) in entries(&resolved) {
        assert!(key.0 != key.1 && key.1 != key.2);
    }
    assert!(resolved.get((0, 0, 1)).is_none());
    assert!(resolved.get((3, 3, 1)).is_none());
    assert!(resolved.get((3, 0, 0)).is_none());
}

#[test]
fn hold_pass_penalizes_two_modifiers_pressed_at_once() {
    let layout = hold_layout();
    let resolved = mapper(true).process_hold_layers(&vec![((7, 0, 1), 2)], &layout);
    assert_eq!(
        entries(&resolved),
        vec![
            ((8, 0, 1), vec![share(2, 0, 1)]),
            ((3, 0, 1), vec![share(2, 0, 1)]),
            ((6, 0, 1), vec![share(2, 0, 1)]),
            ((3, 8, 0), vec![share(2, 0, 1)]),
            ((3, 6, 0), vec![share(2, 1, 1)]),
            ((6, 3, 0), vec![share(2, 1, 1)]),
            ((6, 8, 0), vec![share(2, 0, 1)]),
            ((3, 6, 8), vec![share(2, 1, 1)]),
            ((6, 3, 8), vec![share(2, 1, 1)]),
        ]
    );
}

#[test]
fn hold_pass_takes_two_keys_of_the_second_and_third_symbol() {
    let layout = hold_layout();
    let resolved = mapper(true).process_hold_layers(&vec![((0, 4, 5), 0)], &layout);
    assert_eq!(
        entries(&resolved),
        vec![
            ((0, 3, 1), vec![share(0, 0, 1), share(0, 0, 1)]),
            ((0, 3, 0), vec![share(0, 0, 1)]),
            ((3, 0, 1), vec![share(0, 0, 1)]),
            ((3, 0, 3), vec![share(0, 0, 1)]),
        ]
    );
}

#[test]
fn hold_pass_gathers_the_weights_of_several_trigrams() {
    let layout = hold_layout();
    let resolved =
        mapper(true).process_hold_layers(&vec![((0, 1, 0), 0), ((4, 1, 0), 1)], &layout);
    assert_eq!(
        entries(&resolved),
        vec![
            ((0, 1, 0), vec![share(0, 0, 1), share(1, 0, 1)]),
            ((3, 1, 0), vec![share(1, 0, 1)]),
            ((3, 0, 1), vec![share(1, 0, 1)]),
        ]
    );
}

#[test]
fn hold_pass_without_held_keys_keeps_trigrams_without_repeats() {
    let layout = plain_layout();
    let input = vec![((0, 1, 2), 0), ((2, 1, 0), 1), ((0, 1, 2), 2)];
    let resolved = mapper(true).process_hold_layers(&input, &layout);
    let trigrams = Trigrams { grams: vec![('a', 'b', 'c'), ('c', 'b', 'a'), ('a', 'b', 'c')] };
    let (gathered, _) = mapper(false).layerkey_indices(&trigrams, &layout, true);
    assert_eq!(entries(&resolved), entries(&gathered));
    assert_eq!(
        entries(&resolved),
        vec![((0, 1, 2), vec![share(0, 0, 1), share(2, 0, 1)]), ((2, 1, 0), vec![share(1, 0, 1)])]
    );
}

#[test]
fn hold_pass_drops_a_trigram_with_a_repeated_key() {
    let layout = plain_layout();
    let resolved = mapper(true).process_hold_layers(&vec![((0, 0, 1), 0)], &layout);
    assert_eq!(resolved.len(), 0);
}

#[test]
fn lock_targets_pass_a_trigram_without_locked_keys() {
    let layout = lock_layout();
    assert_eq!(lock_targets(&layout, (0, 6, 1)), vec![((0, 6, 1), 1)]);
    assert_eq!(lock_targets(&layout, (0, 1, 2)), vec![((0, 1, 2), 1)]);
}

#[test]
fn lock_targets_take_base_keys_on_one_locked_layer() {
    let layout = lock_layout();
    assert_eq!(lock_targets(&layout, (4, 5, 4)), vec![((0, 1, 0), 1)]);
}

#[test]
fn lock_targets_split_evenly_between_two_candidates() {
    let layout = lock_layout();
    assert_eq!(
        lock_targets(&layout, (4, 6, 2)),
        vec![((4, 7, 0), 2), ((7, 0, 2), 2), ((4, 8, 0), 2), ((8, 0, 2), 2)]
    );
}

#[test]
fn lock_targets_offer_a_switch_before_and_after_the_middle_key() {
    let layout = lock_layout();
    assert_eq!(
        lock_targets(&layout, (4, 6, 1)),
        vec![
            ((4, 7, 0), 4),
            ((7, 0, 7), 4),
            ((0, 7, 1), 4),
            ((4, 7, 0), 4),
            ((7, 0, 8), 4),
            ((0, 8, 1), 4),
            ((4, 8, 0), 4),
            ((8, 0, 7), 4),
            ((0, 7, 1), 4),
            ((4, 8, 0), 4),
            ((8, 0, 8), 4),
            ((0, 8, 1), 4),
        ]
    );
}

#[test]
fn lock_targets_offer_a_switch_after_the_first_key() {
    let layout = lock_layout();
    assert_eq!(
        lock_targets(&layout, (6, 4, 1)),
        vec![((0, 7, 4), 2), ((7, 4, 1), 2), ((0, 8, 4), 2), ((8, 4, 1), 2)]
    );
}

#[test]
fn lock_targets_offer_a_switch_before_the_third_key() {
    let layout = lock_layout();
    // x a Z: the layers differ at both steps, only Z has a candidate.
    assert_eq!(lock_targets(&layout, (4, 0, 10)), vec![((4, 0, 7), 1), ((0, 7, 1), 1)]);
}

#[test]
fn lock_targets_offer_no_switch_next_to_whitespace() {
    let layout = lock_layout();
    // x space X: the key before X is whitespace, so nothing is pressed before X.
    assert_eq!(lock_targets(&layout, (4, 2, 6)), vec![((4, 2, 0), 1)]);
    // x space Z: the same with a single candidate.
    assert_eq!(lock_targets(&layout, (4, 2, 10)), vec![((4, 2, 1), 1)]);
    // X space x: the key after X is whitespace, so nothing is pressed after X.
    assert_eq!(lock_targets(&layout, (6, 2, 4)), vec![((0, 2, 4), 1)]);
    // space X x: nothing between space and X; a switch between X and x.
    assert_eq!(
        lock_targets(&layout, (2, 6, 4)),
        vec![((2, 0, 7), 2), ((0, 7, 4), 2), ((2, 0, 8), 2), ((0, 8, 4), 2)]
    );
    // x X space: a switch between x and X; nothing between X and space.
    assert_eq!(
        lock_targets(&layout, (4, 6, 2)),
        vec![((4, 7, 0), 2), ((7, 0, 2), 2), ((4, 8, 0), 2), ((8, 0, 2), 2)]
    );
}

#[test]
fn lock_pass_keeps_the_whole_weight_with_whitespace_in_the_middle() {
    let layout = lock_layout();
    let mut input = TrigramIndices::new();
    input.insert_or_add_weight((4, 2, 10), share(0, 0, 1));
    let resolved = mapper(true).process_lock_layers(&input, &layout);
    assert_eq!(entries(&resolved), vec![((4, 2, 1), vec![share(0, 0, 1)])]);
    assert!(resolved.get((4, 2, 7)).is_none());
    assert!(resolved.get((2, 7, 1)).is_none());
}

#[test]
fn lock_targets_offer_a_switch_on_both_sides_of_one_gap() {
    let layout = lock_layout();
    // X W x: after X one of its two candidates, before W its own candidate,
    // after W its candidate again, and nothing before x.
    assert_eq!(
        lock_targets(&layout, (6, 11, 4)),
        vec![
            ((0, 7, 8), 2),
            ((7, 8, 0), 2),
            ((8, 0, 8), 2),
            ((0, 8, 4), 2),
            ((0, 8, 8), 2),
            ((8, 8, 0), 2),
            ((8, 0, 8), 2),
            ((0, 8, 4), 2),
        ]
    );
}

#[test]
fn lock_targets_offer_no_switch_between_keys_of_one_layer() {
    let layout = lock_layout();
    // X Z x: X and Z share a layer.
    assert_eq!(lock_targets(&layout, (6, 10, 4)), vec![((0, 1, 7), 1), ((1, 7, 4), 1)]);
}

#[test]
fn lock_targets_treat_a_held_key_without_modifiers_as_unmodified() {
    let layout = lock_layout();
    assert_eq!(lock_targets(&layout, (4, 9, 1)), vec![((4, 9, 1), 1)]);
}

#[test]
fn lock_pass_divides_the_weights_and_gathers_them() {
    let layout = lock_layout();
    let mut input = TrigramIndices::new();
    input.insert_or_add_weight((0, 1, 0), share(0, 0, 1));
    input.insert_or_add_weight((4, 6, 2), share(1, 0, 1));
    input.insert_or_add_weight((4, 6, 2), share(2, 1, 1));
    input.insert_or_add_weight((4, 5, 4), share(3, 0, 1));
    let resolved = mapper(true).process_lock_layers(&input, &layout);
    assert_eq!(
        entries(&resolved),
        vec![
            ((0, 1, 0), vec![share(0, 0, 1), share(3, 0, 1)]),
            ((4, 7, 0), vec![share(1, 0, 2), share(2, 1, 2)]),
            ((7, 0, 2), vec![share(1, 0, 2), share(2, 1, 2)]),
            ((4, 8, 0), vec![share(1, 0, 2), share(2, 1, 2)]),
            ((8, 0, 2), vec![share(1, 0, 2), share(2, 1, 2)]),
        ]
    );
}

#[test]
fn lock_pass_sums_the_parts_of_paths_through_one_triple() {
    let layout = lock_layout();
    let mut input = TrigramIndices::new();
    input.insert_or_add_weight((4, 6, 1), share(0, 0, 1));
    let resolved = mapper(true).process_lock_layers(&input, &layout);
    assert_eq!(resolved.get((4, 7, 0)), Some(&vec![share(0, 0, 4), share(0, 0, 4)]));
    assert_eq!(resolved.get((7, 0, 7)), Some(&vec![share(0, 0, 4)]));
    assert_eq!(resolved.get((0, 8, 1)), Some(&vec![share(0, 0, 4), share(0, 0, 4)]));
    assert_eq!(resolved.len(), 8);
}

#[test]
fn lock_pass_is_the_identity_without_locked_layers() {
    let layout = hold_layout();
    let mut input = TrigramIndices::new();
    input.insert_or_add_weight((4, 1, 0), share(0, 0, 1));
    input.insert_or_add_weight((0, 1, 0), share(1, 1, 1));
    input.insert_or_add_weight((4, 1, 0), share(2, 2, 3));
    let resolved = mapper(true).process_lock_layers(&input, &layout);
    assert_eq!(entries(&resolved), entries(&input));
}

#[test]
fn accumulator_adds_and_never_replaces() {
    let mut acc = TrigramIndices::new();
    assert_eq!(acc.len(), 0);
    assert!(acc.get((1, 2, 3)).is_none());
    acc.insert_or_add_weight((1, 2, 3), share(0, 0, 1));
    acc.insert_or_add_weight((3, 2, 1), share(1, 0, 1));
    acc.insert_or_add_weight((1, 2, 3), share(2, 1, 2));
    assert_eq!(acc.len(), 2);
    assert_eq!(acc.find((1, 2, 3)), Some(0));
    assert_eq!(acc.find((3, 2, 1)), Some(1));
    assert_eq!(acc.find((2, 2, 2)), None);
    assert_eq!(acc.get((1, 2, 3)), Some(&vec![share(0, 0, 1), share(2, 1, 2)]));
    assert_eq!(acc.get((3, 2, 1)), Some(&vec![share(1, 0, 1)]));
    assert_eq!(acc.key_at(1), (3, 2, 1));
    assert_eq!(acc.weights_at(0), &vec![share(0, 0, 1), share(2, 1, 2)]);
}

#[test]
fn accumulator_tells_key_triples_apart_by_every_key() {
    let mut acc = TrigramIndices::new();
    acc.insert_or_add_weight((1, 2, 3), share(0, 0, 1));
    acc.insert_or_add_weight((1, 2, 4), share(1, 0, 1));
    acc.insert_or_add_weight((1, 3, 3), share(2, 0, 1));
    acc.insert_or_add_weight((2, 2, 3), share(3, 0, 1));
    assert_eq!(acc.len(), 4);
    assert_eq!(acc.get((2, 2, 3)), Some(&vec![share(3, 0, 1)]));
}

#[test]
fn weight_operations() {
    assert_eq!(Weight::whole(4), share(4, 0, 1));
    assert_eq!(share(4, 1, 2).split(3), share(4, 1, 6));
}

#[test]
fn layerkey_indices_resolves_held_modifiers_when_enabled() {
    let layout = hold_layout();
    let trigrams = Trigrams { grams: vec![('A', 'b', 'a'), ('a', 'z', 'b'), ('a', 'b', 'a')] };
    let (result, lost) = mapper(true).layerkey_indices(&trigrams, &layout, true);
    assert_eq!(lost, vec![1]);
    assert_eq!(
        entries(&result),
        vec![
            ((0, 1, 0), vec![share(0, 0, 1), share(2, 0, 1)]),
            ((3, 1, 0), vec![share(0, 0, 1)]),
            ((3, 0, 1), vec![share(0, 0, 1)]),
        ]
    );
}

#[test]
fn layerkey_indices_keeps_higher_layer_keys_when_splitting_is_disabled() {
    let layout = hold_layout();
    let trigrams = Trigrams { grams: vec![('A', 'b', 'a'), ('a', 'b', 'a')] };
    let (result, lost) = mapper(false).layerkey_indices(&trigrams, &layout, true);
    assert!(lost.is_empty());
    assert_eq!(
        entries(&result),
        vec![((4, 1, 0), vec![share(0, 0, 1)]), ((0, 1, 0), vec![share(1, 0, 1)])]
    );
}

#[test]
fn layerkey_indices_sums_trigrams_that_are_typed_alike() {
    let layout = hold_layout();
    let trigrams = Trigrams { grams: vec![('q', 'b', 'a'), ('a', 'b', 'q'), ('a', 'b', 'a')] };
    let (result, _) = mapper(false).layerkey_indices(&trigrams, &layout, true);
    assert_eq!(
        entries(&result),
        vec![((0, 1, 0), vec![share(0, 0, 1), share(1, 0, 1), share(2, 0, 1)])]
    );
}

#[test]
fn layerkey_indices_runs_one_shot_then_lock() {
    let layout = one_shot_layout();
    let trigrams = Trigrams { grams: vec![('a', 'A', 'b'), ('\n', 'a', 'b')] };
    let (result, lost) = mapper(true).layerkey_indices(&trigrams, &layout, true);
    assert!(lost.is_empty());
    assert_eq!(
        entries(&result),
        vec![((0, 2, 0), vec![share(0, 0, 1)]), ((2, 0, 1), vec![share(0, 0, 1)])]
    );
}

#[test]
fn layerkey_indices_resolves_held_keys_and_then_locks() {
    let layout = lock_layout();
    let trigrams = Trigrams { grams: vec![('x', 'y', 'x'), ('a', 'b', 'a')] };
    let (result, lost) = mapper(false).layerkey_indices(&trigrams, &layout, true);
    assert!(lost.is_empty());
    assert_eq!(
        entries(&result),
        vec![((0, 1, 0), vec![share(0, 0, 1), share(1, 0, 1)])]
    );
    let trigrams = Trigrams { grams: vec![('x', 'X', ' ')] };
    let (result, _) = mapper(false).layerkey_indices(&trigrams, &layout, true);
    assert_eq!(
        entries(&result),
        vec![
            ((4, 7, 0), vec![share(0, 0, 2)]),
            ((7, 0, 2), vec![share(0, 0, 2)]),
            ((4, 8, 0), vec![share(0, 0, 2)]),
            ((8, 0, 2), vec![share(0, 0, 2)]),
        ]
    );
}

#[test]
fn every_weight_of_the_result_stems_from_the_corpus() {
    let layout = lock_layout();
    let trigrams = Trigrams {
        grams: vec![('x', 'X', 'b'), ('X', 'x', 'b'), ('a', 'Z', 'y'), ('x', ' ', 'X'), ('a', 'b', ' ')],
    };
    let (result, _) = mapper(true).layerkey_indices(&trigrams, &layout, true);
    assert!(result.len() > 0);
    for (_, weights) in entries(&result) {
        assert!(!weights.is_empty());
        for w in weights {
            assert!(w.source < 5);
            assert!(w.paths >= 1 && w.paths <= 81);
            assert!(w.penalty <= 2);
        }
    }
}

#[test]
fn layerkey_indices_is_the_same_with_the_flags_forced_on() {
    let flags_off = plain_layout();
    let mut flags_on = plain_layout();
    flags_on.one_shot_layers = true;
    flags_on.hold_layers = true;
    flags_on.lock_layers = true;
    assert!(flags_on.is_valid());
    let trigrams = Trigrams {
        grams: vec![('a', 'b', 'c'), ('c', 'b', 'a'), ('z', 'b', 'a'), ('\n', 'a', 'b'), ('a', 'b', 'c')],
    };
    let (on, lost_on) = mapper(true).layerkey_indices(&trigrams, &flags_on, true);
    let (off, lost_off) = mapper(true).layerkey_indices(&trigrams, &flags_off, true);
    assert_eq!(entries(&on), entries(&off));
    assert_eq!(lost_on, lost_off);
    assert_eq!(lost_on, vec![2]);
    assert_eq!(
        entries(&on),
        vec![((0, 1, 2), vec![share(0, 0, 1), share(4, 0, 1)]), ((2, 1, 0), vec![share(1, 0, 1)])]
    );
}

#[test]
fn each_flag_alone_may_be_forced_on() {
    let trigrams = Trigrams { grams: vec![('a', 'b', 'c'), ('c', 'b', 'a')] };
    let (off, _) = mapper(true).layerkey_indices(&trigrams, &plain_layout(), true);
    let mut layout = plain_layout();
    layout.one_shot_layers = true;
    let (on, _) = mapper(true).layerkey_indices(&trigrams, &layout, true);
    assert_eq!(entries(&on), entries(&off));
    let mut layout = plain_layout();
    layout.hold_layers = true;
    let (on, _) = mapper(true).layerkey_indices(&trigrams, &layout, true);
    assert_eq!(entries(&on), entries(&off));
    let mut layout = plain_layout();
    layout.lock_layers = true;
    let (on, _) = mapper(true).layerkey_indices(&trigrams, &layout, true);
    assert_eq!(entries(&on), entries(&off));
}

#[test]
fn filtered_layerkeys_drop_a_held_modifier_next_to_itself() {
    let layout = hold_layout();
    let mut acc = TrigramIndices::new();
    acc.insert_or_add_weight((0, 3, 3), share(0, 0, 1));
    acc.insert_or_add_weight((0, 3, 1), share(1, 0, 1));
    acc.insert_or_add_weight((3, 3, 0), share(2, 0, 1));
    acc.insert_or_add_weight((0, 0, 1), share(3, 0, 1));
    acc.insert_or_add_weight((3, 0, 3), share(4, 0, 1));
    acc.insert_or_add_weight((0, 3, 1), share(5, 1, 1));
    let filtered = OnDemandTrigramMapper::get_filtered_layerkeys(&acc, &layout);
    let seen: Vec<((char, char, char), Vec<Weight>)> = filtered
        .iter()
        .map(|((k1, k2, k3), w)| ((k1.symbol, k2.symbol, k3.symbol), (*w).clone()))
        .collect();
    assert_eq!(
        seen,
        vec![
            (('a', '\u{21e7}', 'b'), vec![share(1, 0, 1), share(5, 1, 1)]),
            (('a', 'a', 'b'), vec![share(3, 0, 1)]),
            (('\u{21e7}', 'a', '\u{21e7}'), vec![share(4, 0, 1)]),
        ]
    );
}
