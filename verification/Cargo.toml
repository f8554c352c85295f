[package]
name = "qr_engine"
version = "0.1.0"
edition = "2021"
publish = false

[dependencies]
jsonpath = "*"
rusqlite = { version = "*", features = ["bundled"] }
serde = { version = "*", features = ["derive"] }
serde_json = "*"

[dev-dependencies]
chrono = "*"
