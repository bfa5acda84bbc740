[package]
name = "dnsmasq"
version = "0.1.0"
edition = "2021"
publish = false

[dependencies]
ahash = "0.8"
bytes = "1"
data-encoding = "2"
hex = "0.4"
lru = "0.12"
ring = "0.17"
serde = { version = "1", features = ["derive"] }
socket2 = { version = "0.5", features = ["all"] }
thiserror = "1"
tokio = { version = "1", features = ["fs", "io-util", "macros", "net", "rt", "sync", "time"] }
tokio-stream = "0.1"
tracing = "0.1"
