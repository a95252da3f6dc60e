//! Discovery of heterogrammic word groups: maximal sets of fixed-length words
//! whose letters, taken together across all words, contain no repeats.
//!
//! The pipeline is: encode each word as a letter mask ([`mask`]), reduce the
//! word list to one representative per anagram class and register the
//! representatives under dense ids ([`words`]), index which later words each
//! word is compatible with, and grow groups generation by generation to a
//! fixpoint ([`engine`]), using a persistent, structurally shared group
//! representation ([`group`]).

pub mod mask;
pub mod words;
pub mod group;
pub mod engine;
