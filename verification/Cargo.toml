[package]
name = "aeropulse_ng"
version = "2.4.0"
edition = "2021"
publish = false

[dependencies]
serde = { version = "1", features = ["derive"] }
serde_json = "1"
tokio = { version = "1", features = ["sync", "process", "io-util", "time", "macros", "rt-multi-thread"] }
