[package]
name = "arxiv_search"
version = "0.1.0"
edition = "2021"
publish = false

[dependencies]
axum = "=0.8.9"
reqwest = { version = "=0.13.5", features = ["query"] }
serde = { version = "=1.0.229", features = ["derive"] }
serde_json = "=1.0.151"
tokio = { version = "=1.53.2", features = ["macros", "rt-multi-thread", "net"] }
tracing-subscriber = "=0.3.23"
