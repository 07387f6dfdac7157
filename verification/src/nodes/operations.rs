//! Trie node lookup and manipulation

pub mod deep_clone;
pub mod delete;
pub mod insert;
pub mod iterator;
pub mod lookup;
pub mod minmax;
