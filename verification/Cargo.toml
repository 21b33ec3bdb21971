[package]
name = "trie_update"
version = "0.1.0"
edition = "2021"
publish = false

[dependencies]
near-primitives = "0.28"
near-vm-runner = { version = "0.28", default-features = false }
tracing = "0.1"
