[package]
name = "matching_engine"
version = "0.1.0"
edition = "2021"
publish = false

[dependencies]
ahash = "0.8"
slab = "0.4"
smallvec = "1"
crc32fast = "1"
serde = { version = "1", features = ["derive"] }
bincode = "1"
rkyv = { version = "0.7", features = ["validation"] }
disruptor = "3"
axum = "0.8"
tokio = { version = "1", features = ["full"] }
tracing = "0.1"
tracing-subscriber = { version = "0.3", features = ["env-filter"] }
anyhow = "1"
thiserror = "1"
