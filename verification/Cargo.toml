[package]
name = "zccache"
version = "0.1.0"
edition = "2021"
publish = false

[dependencies]
blake3 = { version = "1", features = ["pure"] }
dashmap = "6"
serde_json = "1"
tokio = { version = "1", features = ["rt", "time"] }
tracing = "0.1"
