//! The keyboard layout as the trigram mapper reads it: a table of keys, each
//! reachable at one layer, and a table from symbols to keys.

use vstd::prelude::*;

verus! {

/// Identifies one key at one layer: an index into [`Layout::layerkeys`].
pub type LayerKeyIndex = u16;

/// An ordered triple of keys.
pub type KeyTriple = (LayerKeyIndex, LayerKeyIndex, LayerKeyIndex);

/// The most modifiers that a single key may need.
pub const MAX_MODIFIERS: usize = 3;

/// How the modifiers of a layer are operated.
#[derive(Clone, Copy, Debug, PartialEq, Eq, Structural)]
pub enum LayerModifierType {
    /// No modifier is involved.
    Unmodified,
    /// The modifier is held down while the base key is pressed.
    Hold,
    /// The modifier is pressed and released before the base key.
    OneShot,
    /// The modifier toggles its layer until it is pressed again.
    Lock,
}

impl LayerModifierType {
    pub fn is_hold(&self) -> (r: bool)
        ensures
            r == (*self == LayerModifierType::Hold),
    {
        match self {
            LayerModifierType::Hold => true,
            _ => false,
        }
    }

    pub fn is_one_shot(&self) -> (r: bool)
        ensures
            r == (*self == LayerModifierType::OneShot),
    {
        match self {
            LayerModifierType::OneShot => true,
            _ => false,
        }
    }

    pub fn is_lock(&self) -> (r: bool)
        ensures
            r == (*self == LayerModifierType::Lock),
    {
        match self {
            LayerModifierType::Lock => true,
            _ => false,
        }
    }
}

/// The modifiers that reach a key, tagged with the way they are operated.
#[derive(Clone, Debug)]
pub enum LayerModifiers {
    /// The key needs no modifier.
    Unmodified,
    /// The listed keys are held while the base key is pressed.
    Hold(Vec<LayerKeyIndex>),
    /// The listed keys are pressed, in order, before the base key.
    OneShot(Vec<LayerKeyIndex>),
    /// Any one of the listed keys switches to the key's layer.
    Lock(Vec<LayerKeyIndex>),
}

impl LayerModifiers {
    /// The listed modifier keys, in order; empty for [`LayerModifiers::Unmodified`].
    pub open spec fn keys(&self) -> Seq<LayerKeyIndex> {
        match self {
            LayerModifiers::Unmodified => Seq::empty(),
            LayerModifiers::Hold(mods) => mods@,
            LayerModifiers::OneShot(mods) => mods@,
            LayerModifiers::Lock(mods) => mods@,
        }
    }

    /// The tag alone.
    pub open spec fn kind(&self) -> LayerModifierType {
        match self {
            LayerModifiers::Unmodified => LayerModifierType::Unmodified,
            LayerModifiers::Hold(_) => LayerModifierType::Hold,
            LayerModifiers::OneShot(_) => LayerModifierType::OneShot,
            LayerModifiers::Lock(_) => LayerModifierType::Lock,
        }
    }

    pub fn layer_modifier_type(&self) -> (r: LayerModifierType)
        ensures
            r == self.kind(),
    {
        match self {
            LayerModifiers::Unmodified => LayerModifierType::Unmodified,
            LayerModifiers::Hold(_) => LayerModifierType::Hold,
            LayerModifiers::OneShot(_) => LayerModifierType::OneShot,
            LayerModifiers::Lock(_) => LayerModifierType::Lock,
        }
    }
}

/// One symbol at one layer of the layout.
#[derive(Clone, Debug)]
pub struct LayerKey {
    /// The symbol that the key produces.
    pub symbol: char,
    /// The layer on which the symbol lies.
    pub layer: u8,
    /// Whether the key is itself a modifier, and of which sort.
    pub is_modifier: LayerModifierType,
    /// The modifiers needed to reach the symbol.
    pub modifiers: LayerModifiers,
    /// The key that is pressed, together with the modifiers, for the symbol.
    pub base: LayerKeyIndex,
}

/// What holds of a key in a table of `len` keys: its base key and its
/// modifiers are keys of the table, and it has at most [`MAX_MODIFIERS`]
/// modifiers.
pub open spec fn layerkey_valid(key: LayerKey, len: int) -> bool {
    &&& (key.base as int) < len
    &&& key.modifiers.keys().len() <= MAX_MODIFIERS
    &&& forall|j: int|
        0 <= j < key.modifiers.keys().len() ==> (#[trigger] key.modifiers.keys()[j] as int) < len
}

/// The key of the first entry of `symbols` for `c`.
pub open spec fn symbol_index(symbols: Seq<(char, LayerKeyIndex)>, c: char) -> Option<
    LayerKeyIndex,
>
    decreases symbols.len(),
{
    if symbols.len() == 0 {
        None
    } else if symbols[0].0 == c {
        Some(symbols[0].1)
    } else {
        symbol_index(symbols.drop_first(), c)
    }
}

/// Whether some key of the table is reached by modifiers of the given sort.
pub open spec fn has_layer_kind(keys: Seq<LayerKey>, kind: LayerModifierType) -> bool {
    exists|i: int| 0 <= i < keys.len() && (#[trigger] keys[i]).modifiers.kind() == kind
}

/// A keyboard layout.
pub struct Layout {
    /// The keys, indexed by [`LayerKeyIndex`].
    pub layerkeys: Vec<LayerKey>,
    /// The key that types each symbol; the first entry for a symbol counts.
    pub symbols: Vec<(char, LayerKeyIndex)>,
    /// Whether some key is reached by one-shot modifiers.
    pub one_shot_layers: bool,
    /// Whether some key is reached by held modifiers.
    pub hold_layers: bool,
    /// Whether some key is reached by a layer lock.
    pub lock_layers: bool,
}

/// What [`Layout::new`] asks of its tables.
pub open spec fn tables_valid(
    layerkeys: Seq<LayerKey>,
    symbols: Seq<(char, LayerKeyIndex)>,
) -> bool {
    &&& layerkeys.len() <= LayerKeyIndex::MAX as int + 1
    &&& forall|i: int|
        0 <= i < layerkeys.len() ==> layerkey_valid(
            #[trigger] layerkeys[i],
            layerkeys.len() as int,
        )
    &&& forall|i: int|
        0 <= i < symbols.len() ==> ((#[trigger] symbols[i]).1 as int) < layerkeys.len()
}

impl Layout {
    /// The validity of a layout: its tables are valid. Nothing is asked of the
    /// three flags: a layout may report a sort of layer of which it has no key.
    pub open spec fn wf(&self) -> bool {
        tables_valid(self.layerkeys@, self.symbols@)
    }

    /// Whether the three flags say which sorts of layers the layout has.
    pub open spec fn flags_match(&self) -> bool {
        &&& self.one_shot_layers == has_layer_kind(self.layerkeys@, LayerModifierType::OneShot)
        &&& self.hold_layers == has_layer_kind(self.layerkeys@, LayerModifierType::Hold)
        &&& self.lock_layers == has_layer_kind(self.layerkeys@, LayerModifierType::Lock)
    }

    /// Whether `idx` is a key of the layout.
    pub open spec fn has_key(&self, idx: LayerKeyIndex) -> bool {
        (idx as int) < self.layerkeys@.len()
    }

    /// Whether the three keys of `t` are keys of the layout.
    pub open spec fn has_keys(&self, t: KeyTriple) -> bool {
        self.has_key(t.0) && self.has_key(t.1) && self.has_key(t.2)
    }

    /// The key that types `c`, if the layout has the symbol.
    pub open spec fn spec_index_for_symbol(&self, c: char) -> Option<LayerKeyIndex> {
        symbol_index(self.symbols@, c)
    }

    /// The base key of `idx`.
    pub open spec fn spec_base(&self, idx: LayerKeyIndex) -> LayerKeyIndex {
        self.layerkeys@[idx as int].base
    }

    /// The modifiers of `idx`.
    pub open spec fn spec_modifiers(&self, idx: LayerKeyIndex) -> LayerModifiers {
        self.layerkeys@[idx as int].modifiers
    }

    /// Builds a layout from its two tables, with flags that say which sorts of
    /// layers it has, or `None` where the tables are not valid.
    pub fn new(layerkeys: Vec<LayerKey>, symbols: Vec<(char, LayerKeyIndex)>) -> (r: Option<Layout>)
        ensures
            r.is_some() == tables_valid(layerkeys@, symbols@),
            r matches Some(layout) ==> layout.wf() && layout.flags_match() && layout.layerkeys
                == layerkeys && layout.symbols == symbols,
    {
        if !tables_check(&layerkeys, &symbols) {
            return None;
        }
        let one_shot_layers = any_layer_kind(&layerkeys, LayerModifierType::OneShot);
        let hold_layers = any_layer_kind(&layerkeys, LayerModifierType::Hold);
        let lock_layers = any_layer_kind(&layerkeys, LayerModifierType::Lock);
        Some(Layout { layerkeys, symbols, one_shot_layers, hold_layers, lock_layers })
    }

    /// Whether the layout is valid. A layout from [`Layout::new`] is; one that
    /// was put together by hand need not be.
    pub fn is_valid(&self) -> (r: bool)
        ensures
            r == self.wf(),
    {
        tables_check(&self.layerkeys, &self.symbols)
    }

    /// The key with the given index.
    pub fn get_layerkey(&self, idx: LayerKeyIndex) -> (r: &LayerKey)
        requires
            self.has_key(idx),
        ensures
            *r == self.layerkeys@[idx as int],
    {
        &self.layerkeys[idx as usize]
    }

    /// The key that types `c`, if the layout has the symbol.
    pub fn get_layerkey_index_for_symbol(&self, c: char) -> (r: Option<LayerKeyIndex>)
        ensures
            r == self.spec_index_for_symbol(c),
            self.wf() ==> (r matches Some(idx) ==> self.has_key(idx)),
    {
        let mut i: usize = 0;
        assert(self.symbols@.subrange(0, self.symbols@.len() as int) =~= self.symbols@);
        while i < self.symbols.len()
            invariant
                i <= self.symbols@.len(),
                symbol_index(self.symbols@, c) == symbol_index(
                    self.symbols@.subrange(i as int, self.symbols@.len() as int),
                    c,
                ),
            decreases self.symbols@.len() - i,
        {
            let ghost rest = self.symbols@.subrange(i as int, self.symbols@.len() as int);
            assert(rest[0] == self.symbols@[i as int]);
            assert(rest.drop_first() =~= self.symbols@.subrange(
                i as int + 1,
                self.symbols@.len() as int,
            ));
            if self.symbols[i].0 == c {
                return Some(self.symbols[i].1);
            }
            i += 1;
        }
        None
    }

    /// The base key of `idx`.
    pub fn get_base_layerkey_index(&self, idx: LayerKeyIndex) -> (r: LayerKeyIndex)
        requires
            self.has_key(idx),
        ensures
            r == self.spec_base(idx),
            self.wf() ==> self.has_key(r),
    {
        self.layerkeys[idx as usize].base
    }

    /// The base key of `idx` together with its modifiers.
    pub fn resolve_modifiers(&self, idx: LayerKeyIndex) -> (r: (LayerKeyIndex, &LayerModifiers))
        requires
            self.has_key(idx),
        ensures
            r.0 == self.spec_base(idx),
            *r.1 == self.spec_modifiers(idx),
            self.wf() ==> self.has_key(r.0),
    {
        let key = &self.layerkeys[idx as usize];
        (key.base, &key.modifiers)
    }

    pub fn has_one_shot_layers(&self) -> (r: bool)
        ensures
            r == self.one_shot_layers,
    {
        self.one_shot_layers
    }

    pub fn has_hold_layers(&self) -> (r: bool)
        ensures
            r == self.hold_layers,
    {
        self.hold_layers
    }

    pub fn has_lock_layers(&self) -> (r: bool)
        ensures
            r == self.lock_layers,
    {
        self.lock_layers
    }
}

/// The modifier keys listed in `modifiers`.
pub fn modifier_keys(modifiers: &LayerModifiers) -> (r: &[LayerKeyIndex])
    ensures
        r@ == modifiers.keys(),
{
    match modifiers {
        LayerModifiers::Unmodified => &[],
        LayerModifiers::Hold(mods) => mods.as_slice(),
        LayerModifiers::OneShot(mods) => mods.as_slice(),
        LayerModifiers::Lock(mods) => mods.as_slice(),
    }
}

fn layerkey_check(key: &LayerKey, len: usize) -> (r: bool)
    ensures
        r == layerkey_valid(*key, len as int),
{
    let mods = modifier_keys(&key.modifiers);
    if (key.base as usize) >= len || mods.len() > MAX_MODIFIERS {
        return false;
    }
    let mut j: usize = 0;
    while j < mods.len()
        invariant
            j <= mods@.len(),
            mods@ == key.modifiers.keys(),
            forall|k: int| 0 <= k < j ==> (#[trigger] mods@[k] as int) < len,
        decreases mods@.len() - j,
    {
        if (mods[j] as usize) >= len {
            return false;
        }
        j += 1;
    }
    true
}

fn tables_check(layerkeys: &Vec<LayerKey>, symbols: &Vec<(char, LayerKeyIndex)>) -> (r: bool)
    ensures
        r == tables_valid(layerkeys@, symbols@),
{
    let len = layerkeys.len();
    if len > 65536 {
        return false;
    }
    let mut i: usize = 0;
    while i < len
        invariant
            i <= len,
            len == layerkeys@.len(),
            forall|k: int| 0 <= k < i ==> layerkey_valid(#[trigger] layerkeys@[k], len as int),
        decreases len - i,
    {
        if !layerkey_check(&layerkeys[i], len) {
            return false;
        }
        i += 1;
    }
    let mut s: usize = 0;
    while s < symbols.len()
        invariant
            s <= symbols@.len(),
            len == layerkeys@.len(),
            forall|k: int| 0 <= k < s ==> ((#[trigger] symbols@[k]).1 as int) < len,
        decreases symbols@.len() - s,
    {
        if (symbols[s].1 as usize) >= len {
            return false;
        }
        s += 1;
    }
    true
}

fn any_layer_kind(layerkeys: &Vec<LayerKey>, kind: LayerModifierType) -> (r: bool)
    ensures
        r == has_layer_kind(layerkeys@, kind),
{
    let mut i: usize = 0;
    while i < layerkeys.len()
        invariant
            i <= layerkeys@.len(),
            forall|k: int| 0 <= k < i ==> (#[trigger] layerkeys@[k]).modifiers.kind() != kind,
        decreases layerkeys@.len() - i,
    {
        if layerkeys[i].modifiers.layer_modifier_type() == kind {
            return true;
        }
        i += 1;
    }
    false
}

/// What `char::is_whitespace` answers for `c`.
pub uninterp spec fn char_is_whitespace(c: char) -> bool;

/// Calls `char::is_whitespace`. Nothing is claimed of the answer but that it
/// depends on the character alone.
#[verifier::external_body]
pub(crate) fn is_whitespace(c: char) -> (r: bool)
    ensures
        r == char_is_whitespace(c),
{
    c.is_whitespace()
}

} // verus!
