[package]
name = "codera1d"
version = "0.1.0"
edition = "2021"
publish = false

[dependencies]
anyhow = "=1.0.104"
base64 = "=0.13.1"
bincode = "=1.3.3"
chrono = { version = "=0.4.45", features = ["serde"] }
lazy_static = "=1.5.1"
roaring = "=0.11.5"
rocket = { version = "=0.5.2", features = ["json"] }
serde = { version = "=1.0.229", features = ["derive"] }
