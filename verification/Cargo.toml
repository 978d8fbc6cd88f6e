[package]
name = "arb_engine"
version = "0.1.0"
edition = "2021"
publish = false

[dependencies]
rust_decimal = "=1.43.0"
petgraph = "=0.8.3"
ahash = "=0.8.12"
ringbuf = "=0.4.8"
dashmap = "=6.2.1"
metrics = "=0.24.6"
metrics-exporter-prometheus = "=0.18.3"
serde = { version = "=1.0.229", features = ["derive"] }
serde_json = "=1.0.154"
anyhow = "=1.0.104"
tokio = { version = "=1.54.1", features = ["full"] }
tokio-util = "=0.7.20"
flume = "=0.12.0"
redis = { version = "=1.8.1", features = ["tokio-comp", "connection-manager", "streams"] }
binance_spot_connector_rust = { version = "=1.3.0", features = ["enable-hyper", "enable-tokio-tungstenite"] }
hyper = { version = "=0.14.32", features = ["client", "http1", "tcp"] }
hyper-tls = "=0.5.0"
tokio-tungstenite = "=0.23.1"
futures-util = "=0.3.34"
backoff = { version = "=0.4.0", features = ["tokio"] }
axum = "=0.8.9"
tracing = "=0.1.44"
tracing-subscriber = { version = "=0.3.23", features = ["env-filter"] }
dotenvy = "=0.15.7"
once_cell = "=1.21.4"
mimalloc = "=0.1.52"
