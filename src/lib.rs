//! A map that decodes forgivingly: entries whose key or value cannot be
//! decoded are dropped instead of failing the whole map.
//!
//! [`SkippableMap`] wraps a `HashMap`. [`SkippableMapVisitor`] holds the
//! decision logic of the forgiving decoder as a state machine: a format
//! layer pulls entries from its input, hands the outcome of each pull to
//! [`SkippableMapVisitor::visit_entry`] and acts on the step it gets back.
//! The spec function [`decode`] says what a whole run gives; the proof
//! functions exported here state what holds of every run.

mod laws;
mod map;
mod visitor;

pub use laws::{
    decoded_key_at, decoded_keys, entries_only, last_with_key, lemma_agrees_with_strict_when_nothing_is_rejected,
    lemma_decoded_entries_come_from_input, lemma_decoded_keys_are_exactly_the_accepted,
    lemma_empty_input_decodes_to_empty, lemma_last_write_wins, strict_decode_from,
};
pub use map::SkippableMap;
pub use visitor::{
    decode, decode_from, expecting, expecting_text, NextEntry, SkippableMapVisitor, Visit, MAX_RESERVED_ENTRIES,
};
