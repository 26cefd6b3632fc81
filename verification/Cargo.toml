[package]
name = "ojo"
version = "0.1.0"
edition = "2021"
publish = false

[dependencies]
base64 = "0.10"
sha2 = "0.8"
serde = { version = "1", features = ["derive"] }
serde_yaml = "0.8"
chrono = { version = "0.4", features = ["serde"] }
