[package]
name = "link_aggregator"
version = "0.1.0"
edition = "2021"
publish = false

[dependencies]
anyhow = "1"
bincode = "1.3"
rocksdb = { version = "0.23", default-features = false, features = ["lz4", "zstd"] }
serde = { version = "1", features = ["derive"] }

[dev-dependencies]
tempfile = "3"
