[package]
name = "rivine"
version = "0.1.0"
edition = "2021"
publish = false

[dependencies]
anyhow = "1"
bytes = "1"
config = { version = "0.14", default-features = false, features = ["toml"] }
crc32fast = "1"
dashmap = "6"
flate2 = "1"
futures-util = "0.3"
lz4_flex = "0.11"
prometheus = { version = "0.13", default-features = false }
serde = { version = "1", features = ["derive"] }
snap = "1"
thiserror = "1"
tokio = { version = "1", features = ["rt-multi-thread", "macros", "net", "io-util", "sync", "time"] }
tracing = "0.1"
tracing-subscriber = { version = "0.3", features = ["env-filter"] }
zstd = "0.13"
