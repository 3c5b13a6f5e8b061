[package]
name = "caro"
version = "0.1.0"
edition = "2021"
publish = false

[dependencies]
nanoid = "0.4"
serde = { version = "1", features = ["derive"] }
serde_json = "1"
rusqlite = { version = "*", features = ["bundled"] }
parking_lot = "0.12"
lazy_static = "1"
axum = "0.8"
socketioxide = { version = "*", features = ["state"] }
tokio = { version = "1", features = ["full"] }
tower-http = { version = "*", features = ["cors"] }
tracing = "0.1"
tracing-subscriber = "0.3"
dotenvy = "0.15"
