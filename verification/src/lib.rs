//! A prefix-completion dictionary: words are stored in a character-keyed
//! prefix tree, which answers "list all stored words with a given prefix"
//! and renders itself as a graph-description file for visualization.

pub mod dot;
pub mod laws;
pub mod trie;
