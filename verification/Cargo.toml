[package]
name = "poll_registry"
version = "0.1.0"
edition = "2021"
publish = false

[dependencies]
matrix_bot_api = "*"
rand = "*"
serde = { version = "*", features = ["derive"] }
serde_yaml = "*"
