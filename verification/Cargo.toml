[package]
name = "fortress_protocol"
version = "0.1.0"
edition = "2021"
publish = false

[dependencies]
bincode = "1.3"
bytes = { version = "1", features = ["serde"] }
dashmap = "6"
ed25519-dalek = { version = "2", features = ["rand_core"] }
futures = "0.3"
local-channel = "0.1"
rand = "0.8"
sha2 = "0.10"
tokio = { version = "1", features = ["io-util", "macros", "net", "rt", "rt-multi-thread", "sync", "time"] }
tokio-util = { version = "0.7", features = ["codec"] }
