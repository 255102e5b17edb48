[package]
name = "cpu_game"
version = "0.1.0"
edition = "2021"
publish = false

[dependencies]
image = { version = "=0.25.10", default-features = false, features = ["png", "bmp"] }
rand = "=0.9.5"
serde = { version = "=1.0.229", features = ["derive"] }
bincode = "=1.3.3"
tokio = { version = "1", features = ["rt-multi-thread", "net", "sync", "time", "macros"] }
tokio-tungstenite = "*"
futures = "0.3"
