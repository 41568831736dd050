[package]
name = "ghtrending"
version = "0.1.0"
edition = "2021"
publish = false

[dependencies]
scraper = { version = "=0.20.0", features = ["deterministic"] }
ego-tree = "=0.6.3"
tokio-util = { version = "=0.7.20", features = ["codec"] }
bytes = "=1.12.1"
serde = { version = "=1.0.229", features = ["derive"] }
serde_json = "=1.0.154"
tokio = { version = "=1.54.1", features = ["macros", "rt-multi-thread", "fs", "io-util"] }
tokio-serde = { version = "=0.9.0", features = ["json"] }
futures = "=0.3.34"
mlua = { version = "=0.10.5", features = ["lua54", "module"] }
reqwest = { version = "=0.12.28", default-features = false, features = ["rustls-tls"] }
