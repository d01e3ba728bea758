[package]
name = "lsmkv"
version = "0.1.0"
edition = "2021"
publish = false

[dependencies]
bincode = "1.3"
bytes = "1"
futures = "0.3"
memmap2 = "0.9"
serde = { version = "1", features = ["derive"] }
thiserror = "1"
tokio = { version = "1", features = ["full"] }
tokio-util = { version = "0.7", features = ["codec"] }
zstd = "0.13"
