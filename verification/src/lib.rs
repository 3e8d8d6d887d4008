//! The nodes of a hash array mapped trie: the structure under a persistent
//! hash map or hash set.

pub mod bits;
pub mod chunk;
pub mod collision;
pub mod drain;
pub mod iter;
pub mod iter_mut;
pub mod laws;
pub mod model;
pub mod node;
pub mod node_impl;
pub mod node_proofs;
pub mod refill;
pub mod shared;
pub mod small;
pub mod value;
