[package]
name = "proxy_engine"
version = "0.1.0"
edition = "2021"
publish = false

[dependencies]
rand = "0.8"
scraper = "*"
reqwest = { version = "0.12", features = ["json"] }
tokio = { version = "1", features = ["rt-multi-thread", "macros", "time", "net", "sync"] }
futures = "0.3"
serde = { version = "1", features = ["derive"] }
serde_json = "1"
