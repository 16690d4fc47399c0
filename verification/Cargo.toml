[package]
name = "chop_chop"
version = "0.1.0"
edition = "2021"
publish = false

[dependencies]
fraction = "*"
async-channel = "*"
serde = { version = "*", features = ["derive"] }
serde_json = "*"
