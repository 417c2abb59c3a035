//! A prefix tree over a configurable alphabet, with a presence-only flavour
//! (`Trie`) and a counting flavour (`MultiTrie`).
pub mod trie;
