[package]
name = "unbox"
version = "0.1.0"
edition = "2021"
publish = false

[dependencies]
base64 = "0.22"
serde = { version = "1", features = ["derive"] }
serde_json = "1"
env_logger = { version = "0.11", default-features = false }

[dev-dependencies]
regex = "1"
