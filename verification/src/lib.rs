//! Maps the character trigrams of a corpus to the key trigrams that type them
//! on a given keyboard layout, resolving one-shot, held and locked modifiers.

pub mod accumulator;
pub mod common;
pub mod hold_layers;
pub mod laws;
pub mod layout;
pub mod lock_layers;
pub mod one_shot_layers;
pub mod trigram_mapper;
pub mod windows;
