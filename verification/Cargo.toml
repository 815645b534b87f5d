[package]
name = "burn_autogaze"
version = "0.1.0"
edition = "2021"
publish = false

[dependencies]
anyhow = "=1.0.104"
burn = { version = "=0.21.0", default-features = false, features = ["ndarray"] }
burn-store = { version = "=0.21.0", default-features = false, features = ["std", "safetensors"] }
image = { version = "=0.25.10", default-features = false }
serde = { version = "=1.0.229", features = ["derive"] }
serde_json = "=1.0.154"
