[package]
name = "moba_lobby"
version = "0.1.0"
edition = "2021"
publish = false

[dependencies]
uuid = { version = "=1.29.0", features = ["v4", "serde"] }
serde = { version = "=1.0.229", features = ["derive"] }
serde_json = "=1.0.154"
anyhow = "=1.0.104"
clap = { version = "=4.6.7", features = ["derive"] }
tokio = { version = "=1.54.1", features = ["full"] }
wtransport = { version = "=0.7.2", features = ["dangerous-configuration"] }
config = "=0.15.27"
ron = "=0.12.3"
