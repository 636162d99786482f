[package]
name = "gcast"
version = "0.1.0"
edition = "2021"
publish = false

[dependencies]
regex = "1"
regex-syntax = "0.8"
serde = { version = "1", features = ["derive"] }
toml = "0.8"
dirs = "5"
colored = "2"
bincode = "1"
