[package]
name = "lsm"
version = "0.1.0"
edition = "2021"
publish = false

[dependencies]
zstd = "0.13"
fastbloom = { version = "*", features = ["serde"] }
bincode = "1"
regex = "1"
