[package]
name = "grove"
version = "0.1.0"
edition = "2021"
publish = false

[dependencies]
base64 = "=0.22.1"
crossterm = "=0.28.1"
image = { version = "=0.25.6", default-features = false, features = ["bmp", "gif", "jpeg", "png", "tiff", "webp"] }
ratatui = "=0.29.0"
serde_json = "=1.0.154"
