[package]
name = "conduit"
version = "0.2.0"
edition = "2021"
publish = false

[dependencies]
rust-argon2 = "0.8"
rand = "0.8"
lru-cache = "0.1"
serde = { version = "1", features = ["derive"] }
serde_json = "1"
image = { version = "0.23", default-features = false, features = ["png", "jpeg", "gif"] }
ruma = { version = "*", features = ["signatures"] }
tokio = { version = "1", features = ["sync", "time", "rt", "macros", "signal"] }
rusqlite = { version = "*", features = ["bundled"] }
parking_lot = "0.12"
crossbeam = "0.8"
num_cpus = "1"
log = "0.4"
tracing = "0.1"
directories = "*"
http = "*"
rocket = "0.5"
reqwest = { version = "*", default-features = false }
trust-dns-resolver = "*"
