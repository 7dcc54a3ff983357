[package]
name = "crdt"
version = "0.1.0"
edition = "2021"
publish = false

[dependencies]
bincode = { version = "2", features = ["serde"] }
chrono = "0.4"
graphviz-rust = "*"
libp2p = { version = "*", features = ["gossipsub", "noise", "tcp", "yamux", "tokio", "macros"] }
rand = "0.8"
serde = { version = "1", features = ["derive"] }
tokio = { version = "1", features = ["rt-multi-thread", "macros", "sync", "time"] }
toml = "*"
