[package]
name = "blazenet"
version = "0.1.0"
edition = "2021"
publish = false

[dependencies]
anyhow = "=1.0.104"
axum = { version = "=0.8.9", default-features = false, features = ["http1", "json", "query", "tokio"] }
blake3 = "=1.8.7"
fastcdc = "=5.0.0"
iroh = "=1.4.1"
iroh-relay = { version = "=1.4.1", features = ["test-utils"] }
rand = "=0.10.3"
rand_chacha = "=0.10.0"
redb = "=4.4.0"
serde = { version = "=1.0.229", features = ["derive"] }
serde_json = "=1.0.154"
tokio = { version = "=1.54.1", features = ["rt-multi-thread", "net", "time", "macros", "sync", "io-util", "fs", "signal"] }
toml = "=1.1.8"
tonic = { version = "*", default-features = false }
tower-http = { version = "=0.6.11", features = ["fs"] }
