[package]
name = "triword"
version = "0.1.0"
edition = "2021"
publish = false

[dependencies]
radix_trie = "*"
rayon = "1"
serde = { version = "1", features = ["derive"] }
serde_json = "1"
