[package]
name = "game-cluster"
version = "0.1.0"
edition = "2021"
publish = false

[dependencies]
axum = "0.6"
bincode = "1"
bytes = "1"
chrono = "0.4"
idgenerator = "*"
rand = "0.8"
reqwest = { version = "0.11", default-features = false }
serde = { version = "1", features = ["derive"] }
serde_json = "1"
tokio = { version = "1", features = ["full"] }
toml = "*"
tracing = "0.1"
tracing-subscriber = "0.3"
uuid = { version = "1", features = ["v4"] }
zeromq = "*"
