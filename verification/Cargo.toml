[package]
name = "sync_core"
version = "0.1.0"
edition = "2021"
publish = false

[dependencies]
chrono = "0.4"
rusqlite = "*"
serde = { version = "1", features = ["derive"] }
uuid = { version = "1", features = ["v4"] }
