[package]
name = "pumpkin_voice"
version = "0.1.0"
edition = "2021"
publish = false

[dependencies]
aes-gcm = "0.10"
rand = "0.8"
uuid = { version = "1", features = ["v4"] }
serde = { version = "1", features = ["derive"] }
toml = "0.8"
tracing = "0.1"
bytes = "1"
pumpkin-plugin-api = "*"
