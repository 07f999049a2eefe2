[package]
name = "asr-data"
version = "0.1.1"
edition = "2021"
publish = false

[dependencies]
unicode-general-category = "=1.1.0"
unicode-width = "=0.2.3"
serde_json = "=1.0.154"
uuid = { version = "=1.29.0", features = ["v4"] }
base64 = "=0.22.1"
serde = { version = "=1.0.229", features = ["derive"] }
anyhow = "=1.0.104"
symphonia = { version = "=0.6.1", features = ["all"] }
rusqlite = { version = "=0.41.1", features = ["bundled"] }
rmp-serde = "=1.3.1"
url = "2"
