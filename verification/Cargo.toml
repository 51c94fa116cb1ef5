[package]
name = "overlay_router"
version = "0.1.0"
edition = "2021"
publish = false

[dependencies]
crossbeam-channel = "=0.5.17"
uuid = { version = "=1.27.0", features = ["serde", "v4"] }
serde = { version = "=1.0.229", features = ["derive"] }
anyhow = "=1.0.104"
