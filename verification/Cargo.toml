[package]
name = "vectordb-core"
version = "0.1.0"
edition = "2021"
publish = false

[dependencies]
serde = { version = "=1.0.229", features = ["derive"] }
serde_json = "=1.0.154"
bincode = "=1.3.3"
crc32fast = "=1.5.4"
parking_lot = "=0.12.5"
lock_api = "=0.4.14"
rand = "=0.8.8"
rayon = "=1.12.0"
thiserror = "=1.0.69"
tracing = "=0.1.44"
tokio = { version = "=1.54.1", features = ["rt-multi-thread", "macros", "net", "time"] }
axum = "=0.7.9"
