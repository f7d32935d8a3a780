[package]
name = "evolve_backend"
version = "0.1.0"
edition = "2021"
publish = false

[dependencies]
uuid = { version = "*", features = ["v4"] }
chrono = "*"
serde = { version = "*", features = ["derive"] }
serde_json = "*"
toml = "*"
log = "*"
redis = { version = "*", features = ["tokio-comp"] }
tokio = { version = "*", features = ["rt", "macros", "sync", "time"] }
futures-util = "*"
actix-web = "*"
actix-ws = "*"
