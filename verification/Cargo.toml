[package]
name = "phira_model"
version = "0.1.0"
edition = "2021"
publish = false

[dependencies]
lru = "=0.19.0"
anyhow = "1"
bytes = "1"
futures-util = "0.3"
once_cell = "1"
serde = { version = "1", features = ["derive"] }
reqwest = { version = "0.12", default-features = false, features = ["stream"] }
reqwest-middleware = "0.4"
http-cache-reqwest = "=0.16.0"
image = { version = "=0.25.10", default-features = false, features = ["png", "jpeg"] }
