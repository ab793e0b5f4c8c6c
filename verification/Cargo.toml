[package]
name = "rocket_multipart"
version = "0.1.0"
edition = "2021"
publish = false

[dependencies]
memchr = "2"
rand = "0.8"
rocket = { version = "0.5.1", default-features = false }
serde = "1"
serde_json = "1"
thiserror = "1"
tokio-util = { version = "0.7", features = ["codec"] }
