[package]
name = "clipboard_manager"
version = "0.1.0"
edition = "2021"
publish = false

[dependencies]
aes-gcm = "*"
base64 = "*"
regex = "*"
serde = { version = "*", features = ["derive"] }
serde_json = "*"
chrono = "*"
