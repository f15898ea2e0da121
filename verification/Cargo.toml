[package]
name = "memvid_split"
version = "0.1.0"
edition = "2021"
publish = false

[dependencies]
bincode = { version = "2", features = ["serde"] }
serde = { version = "1", features = ["derive"] }
serde_json = "1"
tracing = "0.1"
napi = { version = "2", features = ["napi6", "serde-json"] }
napi-derive = "2"
