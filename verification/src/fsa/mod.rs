//! A compact ordered map from byte keys to `u64`, backed by a minimal
//! acyclic finite-state automaton plus a value table addressed by each
//! key's rank in sorted order.

pub mod varint;
pub mod trie;
pub mod canon;
pub mod lang;
pub mod encode;
pub mod decode;
pub mod builder;
pub mod dict;
pub mod sort;
pub mod dict_build;
pub mod reader;
