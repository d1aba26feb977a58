[package]
name = "catdog"
version = "0.1.0"
edition = "2021"
publish = false

[dependencies]
anyhow = "1"
chrono = "0.4"
colored = "2"
dirs = "5"
serde = { version = "1", features = ["derive"] }
serde_json = "1"
similar = "2"
toml = "0.8"
walkdir = "2"
