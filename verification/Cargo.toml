[package]
name = "archivist"
version = "0.1.0"
edition = "2021"
publish = false

[dependencies]
bincode = "=1.3.3"
failure = "=0.1.8"
fs2 = "=0.4.3"
getrandom = "=0.2.17"
rusqlite = "=0.23.1"
serde = { version = "=1.0.229", features = ["derive"] }
serde_json = "=1.0.154"
