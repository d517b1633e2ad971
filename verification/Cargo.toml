[package]
name = "inputx"
version = "0.1.0"
edition = "2021"
publish = false

[dependencies]
sha2 = "0.10"
memmap2 = "0.9"
serde = { version = "1", features = ["derive"] }
toml = "0.8"
ureq = "2"
arc-swap = "1"
