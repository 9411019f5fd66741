[package]
name = "dream_engine"
version = "0.1.0"
edition = "2021"
publish = false

[dependencies]
async-trait = "0.1"
bincode = "1.3"
chrono = "0.4"
image = { version = "0.24", default-features = false, features = ["png", "jpeg"] }
serde = { version = "1.0", features = ["derive"] }
serde_json = "1.0"
thiserror = "1.0"
tokio = { version = "1", features = ["fs", "sync", "rt"] }
tokio-stream = { version = "0.1", features = ["fs"] }
uuid = { version = "1", features = ["v4"] }
walkdir = "2"
