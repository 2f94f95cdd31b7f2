[package]
name = "tsuki_optimize"
version = "0.1.0"
edition = "2021"
publish = false

[dependencies]
rand = { version = "0.8", features = ["small_rng"] }
serde = { version = "1", features = ["derive"] }
toml = "0.8"
chrono = "0.4"
signal-hook = "0.3"
