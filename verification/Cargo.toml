[package]
name = "merkle_patricia_tree"
version = "0.1.0"
edition = "2021"
publish = false

[dependencies]
bincode = "1"
rust-crypto = "0.2"
sha2 = "0.10"
