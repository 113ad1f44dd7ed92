[package]
name = "qrap"
version = "0.2.0"
edition = "2021"
publish = false

[dependencies]
sha3 = "0.10"
rand = "0.8"
hex = "0.4"
serde = { version = "1", features = ["derive"] }
bincode = "1"
serde_json = "1"
thiserror = "1"
tokio = { version = "1", features = ["full"] }
tracing = "0.1"
clap = { version = "4", features = ["derive"] }
chrono = "0.4"
sled = "0.34"
reqwest = { version = "0.12", default-features = false }
async-trait = "0.1"
anyhow = "1"
