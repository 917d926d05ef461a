[package]
name = "orakel"
version = "0.1.0"
edition = "2021"
publish = false

[dependencies]
chrono = "0.4"
pulldown-cmark = "0.12"
toml = "0.8"
serde = { version = "1", features = ["derive"] }
serde_json = "1"
csv = "1"
anyhow = "1"
