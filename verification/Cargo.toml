[package]
name = "weread"
version = "1.0.0"
edition = "2021"
publish = false

[dependencies]
scraper = "=0.29.0"
ego-tree = "=0.11.1"
regex = "=1.13.1"
reqwest = { version = "=0.12.28", default-features = false, features = ["rustls-tls"] }
tokio = { version = "=1.54.1", features = ["macros", "rt-multi-thread", "fs", "time", "sync", "io-std"] }
rmcp = { version = "=3.8.0", features = ["server", "macros", "transport-io"] }
serde = { version = "=1.0.229", features = ["derive"] }
serde_json = "=1.0.154"
thiserror = "=2.0.21"
tracing = "=0.1.44"
tracing-subscriber = "=0.3.23"
