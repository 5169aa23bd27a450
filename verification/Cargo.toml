[package]
name = "kvstore"
version = "0.1.0"
edition = "2021"
publish = false

[dependencies]
lz4 = "*"
chrono = "*"
log = "*"
serde = { version = "*", features = ["derive"] }
serde_json = "*"
tokio = { version = "*", features = ["sync", "rt", "rt-multi-thread", "time", "macros"] }
