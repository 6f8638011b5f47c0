[package]
name = "minimalchat"
version = "0.1.0"
edition = "2021"
publish = false

[dependencies]
serde = { version = "1", features = ["derive"] }
serde_json = "1"
reqwest = { version = "0.12", default-features = false, features = ["json", "gzip", "rustls-tls"] }
chrono = { version = "0.4", default-features = false, features = ["now"] }
rusqlite = "0.31"
tokio = { version = "1", features = ["sync", "macros", "rt-multi-thread"] }
env_logger = { version = "0.11", default-features = false }
