[package]
name = "b2"
version = "0.1.0"
edition = "2021"
publish = false

[dependencies]
bincode = "1"
crc32fast = "1"
serde = "1"
thiserror = "1"
tokio = { version = "1", features = ["fs", "io-util", "rt", "sync"] }
