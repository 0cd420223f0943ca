[package]
name = "hivedb"
version = "0.1.0"
edition = "2021"
publish = false

[dependencies]
bincode = "=1.3.3"
dashmap = "=6.2.1"
hnsw_rs = "=0.3.5"
napi = { version = "=3.16.1", features = ["async", "napi6"] }
napi-derive = "=3.7.0"
redb = "=2.6.4"
serde = { version = "=1.0.229", features = ["derive"] }
serde_json = { version = "=1.0.154", features = ["unbounded_depth"] }
tantivy = "=0.22.1"
tempfile = "=3.27.0"
thiserror = "=1.0.69"
tokio = { version = "=1.54.1", features = ["rt", "sync"] }
uuid = { version = "=1.29.0", features = ["serde", "v4"] }
