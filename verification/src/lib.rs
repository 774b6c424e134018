//! An in-memory prefix tree (trie) mapping string keys to values.
//!
//! A [`trie::Trie`] owns a tree of [`node::TrieNode`]s, one edge per
//! character.  Keys are inserted and looked up by walking the tree one
//! character at a time; a node carries a value exactly when the path from
//! the root to it spells a key that was inserted.

pub mod laws;
pub mod node;
pub mod trie;
