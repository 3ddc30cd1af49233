[package]
name = "memora"
version = "0.1.0"
edition = "2021"
publish = false

[dependencies]
blake3 = "=1.8.7"
regex = "=1.13.1"
chrono = "=0.4.45"
clap = { version = "=4.6.7", features = ["derive"] }
anyhow = "=1.0.104"
serde = { version = "=1.0.229", features = ["derive"] }
serde_json = "=1.0.154"
toml = "=0.8.23"
figment = { version = "=0.10.19", features = ["toml"] }
dirs = "=5.0.1"
scraper = "=0.29.0"
pdf-extract = "=0.12.1"
rusqlite = { version = "*", features = ["bundled"] }
