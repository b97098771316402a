[package]
name = "unibus"
version = "0.1.0"
edition = "2021"
publish = false

[dependencies]
anyhow = "1"
async-trait = "0.1"
axum = "*"
byteorder = "1"
bytes = "1"
clap = { version = "4", features = ["derive"] }
dashmap = "*"
metrics = "*"
metrics-exporter-prometheus = { version = "*", default-features = false }
parking_lot = "0.12"
rand = "*"
reqwest = { version = "*", default-features = false, features = ["json"] }
serde = { version = "1", features = ["derive"] }
serde_json = "1"
serde_yaml = "*"
thiserror = "*"
tokio = { version = "1", features = ["full"] }
tracing = "0.1"
tracing-subscriber = { version = "0.3", features = ["env-filter"] }
