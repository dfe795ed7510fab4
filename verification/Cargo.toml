[package]
name = "kf_protocol_message"
version = "0.1.0"
edition = "2021"
publish = false

[dependencies]
bytes = "0.4"
futures = { version = "0.3", features = ["compat"] }
tokio = "0.1"
serde = { version = "1", features = ["derive"] }
