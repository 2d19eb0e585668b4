[package]
name = "mempool"
version = "0.1.0"
edition = "2021"
publish = false

[dependencies]
ed25519-dalek = "1"
bincode = "1"
tokio = { version = "1", features = ["sync", "rt", "time", "macros"] }
bytes = "1"
futures = "0.3"
