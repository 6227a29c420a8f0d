[package]
name = "polybot"
version = "0.1.0"
edition = "2021"
publish = false

[dependencies]
rust_decimal = "1"
rust_decimal_macros = "1"
serde = { version = "1", features = ["derive"] }
serde_json = "1"
chrono = "0.4"
tokio = { version = "1", features = ["rt-multi-thread", "macros", "sync", "time"] }
reqwest = { version = "0.12", default-features = false, features = ["json", "rustls-tls"] }
ratatui = "0.29"
crossterm = "0.28"
tokio-tungstenite = "0.24"
futures = "0.3"
futures-util = "0.3"
url = "2"
anyhow = "1"
dotenvy = "0.15"
thiserror = "2"
base64 = "0.22"
hmac = "0.12"
derive_builder = "0.20"
