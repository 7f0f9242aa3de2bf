[package]
name = "boggle"
version = "0.1.0"
edition = "2021"
publish = false

[dependencies]
sequence_trie = "*"
rand = "0.8"
serde = { version = "1", features = ["derive"] }
bincode = "1"
chrono = "0.4"
