//! An ordered index: a B+ tree whose leaves hold a bounded number of entries.

pub mod key;
pub mod dimension;
pub mod range;
pub mod sorted;
pub mod parts;
pub mod leaf;
pub mod leaf_node;
pub mod internal_node;
pub mod leaf_iter;
pub mod chain;
pub mod tree_index;
pub mod laws;
pub mod index_laws;
pub mod leaf_laws;
