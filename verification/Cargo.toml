[package]
name = "crep_indexer"
version = "0.1.0"
edition = "2021"
publish = false

[dependencies]
roaring = "=0.11.5"
fst = "=0.4.7"
regex-automata = { version = "=0.1.10", features = ["transducer"] }
regex-syntax = "=0.8.11"
regex = "=1.13.1"
aho-corasick = "=1.1.5"
ahash = "=0.8.12"
owo-colors = "=4.4.0"
git2 = { version = "=0.21.0", default-features = false }
anyhow = "=1.0.104"
clap = { version = "=4.6.7", features = ["derive"] }
serde = { version = "=1.0.229", features = ["derive"] }
bincode = { version = "=2.0.1", features = ["serde"] }
chrono = { version = "=0.4.45", default-features = false, features = ["std"] }
lru = "*"
arrayvec = "=0.7.8"
