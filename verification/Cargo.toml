[package]
name = "tacview_live"
version = "0.1.0"
edition = "2021"
publish = false

[dependencies]
serde = { version = "1", features = ["derive"] }
serde_json = "1"
base64 = "0.22"
url = "2"
chrono = "0.4"
dotenvy = "0.15"
