[package]
name = "whisper_gtk"
version = "0.1.0"
edition = "2021"
publish = false

[dependencies]
gtk4 = "*"
libxdo = "*"
libpulse-binding = "*"
libpulse-simple-binding = "*"
serde = { version = "1", features = ["derive"] }
serde_json = "1"
whisper-rs = "*"
