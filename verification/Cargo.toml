[package]
name = "devfiler"
version = "0.1.0"
edition = "2021"
publish = false

[dependencies]
anyhow = "1"
base64 = "=0.22.1"
chrono = "=0.4.45"
home = "0.5"
indexmap = "=2.14.2"
lru = "=0.12.5"
memmap2 = "0.9"
rand = "=0.8.8"
reqwest = { version = "0.12", default-features = false, features = ["json", "rustls-tls"] }
rkyv = { version = "0.7", features = ["validation"] }
rocksdb = "0.22"
serde = { version = "1", features = ["derive"] }
serde_json = "1"
tokio = { version = "1", features = ["rt-multi-thread", "macros", "sync", "time"] }
tracing = "0.1"
xxhash-rust = { version = "=0.8.19", features = ["xxh3"] }
zstd = "=0.13.3"
