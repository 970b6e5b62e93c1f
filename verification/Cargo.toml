[package]
name = "cliprelay"
version = "0.1.0"
edition = "2021"
publish = false

[dependencies]
sha2 = "*"
hkdf = "*"
chacha20poly1305 = "*"
base64 = "*"
url = "*"
serde = { version = "*", features = ["derive"] }
serde_json = "*"
clap = { version = "*", features = ["derive"] }
tokio = { version = "*", features = ["rt-multi-thread", "macros", "net", "time", "sync", "io-util"] }
tokio-tungstenite = "*"
futures = "*"
axum = { version = "*", features = ["ws"] }
