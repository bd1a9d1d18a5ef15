[package]
name = "tiny_ed448_goldilocks"
version = "0.1.0"
edition = "2021"
publish = false

[dependencies]
base64 = "0.22"
serde = { version = "1", features = ["derive"] }

[dev-dependencies]
crypto-bigint = "0.5"
rand = "0.8"
serde_json = "1"
