[package]
name = "discorhdd"
version = "0.1.0"
edition = "2021"
publish = false

[dependencies]
anyhow = "1"
futures = "0.3"
nbdkit = "*"
serde = { version = "1", features = ["derive"] }
serde_json = "1"
serenity = "0.11"
tokio = { version = "1", features = ["rt-multi-thread", "sync", "macros"] }
toml = "0.8"
