[package]
name = "watermark"
version = "0.1.0"
edition = "2021"
publish = false

[dependencies]
lopdf = "*"
base64 = "0.22"
fontdue = "0.9"
serde = { version = "1", features = ["derive"] }
