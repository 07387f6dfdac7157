//! Trie nodes and the operations on them.

pub mod counting;
pub mod header;
pub mod model;
pub mod operations;
pub mod representation;
pub mod theorems;
