[package]
name = "chat_relay"
version = "0.1.0"
edition = "2021"
publish = false

[dependencies]
tokio = { version = "*", features = ["full"] }
uuid = { version = "*", features = ["v4"] }
anyhow = "*"
