[package]
name = "kv_wire"
version = "0.1.0"
edition = "2021"
publish = false

[dependencies]
bytes = "1"
chrono = "0.4"
mini-redis = "0.4"
tokio = { version = "1", features = ["full"] }
