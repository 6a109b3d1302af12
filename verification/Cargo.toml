[package]
name = "hexcaster"
version = "0.3.0"
edition = "2021"
publish = false

[dependencies]
chrono = "=0.4.45"
crossterm = "=0.28.1"
dirs = "=5.0.1"
hecs = "=0.10.5"
hmac = "0.12"
rand = "=0.8.8"
ratatui = "=0.29.0"
serde = { version = "=1.0.229", features = ["derive"] }
serde_json = "=1.0.154"
sha2 = "0.10"
thiserror = "=1.0.69"
