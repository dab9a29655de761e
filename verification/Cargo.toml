[package]
name = "hftcore"
version = "0.1.0"
edition = "2021"
publish = false

[dependencies]
bincode = "2"
chrono = "*"
futures-util = "*"
iceoryx2 = "*"
serde = { version = "*", features = ["derive"] }
serde_json = "*"
tokio = { version = "*", features = ["macros", "rt", "sync", "time"] }
tokio-tungstenite = "*"
