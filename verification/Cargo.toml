[package]
name = "novel_writer"
version = "0.1.0"
edition = "2021"
publish = false

[dependencies]
similar = "*"
chrono = "*"
rusqlite = { version = "*", features = ["bundled"] }
serde = { version = "*", features = ["derive"] }
serde_json = "*"
