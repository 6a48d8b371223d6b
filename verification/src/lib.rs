//! A Merkle Patricia Trie: a radix-compressed, in-memory map from
//! arbitrary-length byte keys to values, which maintains a single 32-byte
//! cryptographic digest identifying the whole key-value set.

pub mod hashing;
pub mod merkle_tree;
