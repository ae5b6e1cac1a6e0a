[package]
name = "rust_dns"
version = "0.1.0"
edition = "2021"
publish = false

[dependencies]
anyhow = "=1.0.104"
arc-swap = "=1.9.3"
axum = { version = "=0.8.9", default-features = false, features = ["http1", "json", "query", "tokio"] }
governor = { version = "=0.10.4", default-features = false, features = ["std", "jitter"] }
hickory-proto = "=0.26.3"
moka = { version = "=0.12.16", features = ["future"] }
redb = "=4.4.0"
serde = { version = "=1.0.229", features = ["derive"] }
socket2 = { version = "=0.6.5", features = ["all"] }
tokio = { version = "=1.54.1", features = ["full"] }
toml = "*"
tracing = "=0.1.44"
tracing-subscriber = { version = "=0.3.23", features = ["env-filter"] }
