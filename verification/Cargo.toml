[package]
name = "scripture_search"
version = "0.1.0"
edition = "2021"
publish = false

[dependencies]
rust-stemmers = "1"
serde = { version = "1", features = ["derive"] }
serde_json = "1"
bincode = "1"
