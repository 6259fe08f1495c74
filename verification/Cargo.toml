[package]
name = "ai_live"
version = "0.1.0"
edition = "2021"
publish = false

[dependencies]
uuid = { version = "=1.27.0", features = ["v4"] }
anyhow = "=1.0.104"
bytes = "=1.12.1"
http = "=1.5.0"
http-body-util = "=0.1.5"
markdown = "=1.0.0"
serde = { version = "=1.0.229", features = ["derive"] }
serde_json = "=1.0.151"
spin-sdk = "=7.0.0"
