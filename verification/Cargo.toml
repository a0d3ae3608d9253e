[package]
name = "aarnn"
version = "0.1.0"
edition = "2021"
publish = false

[dependencies]
sha2 = "=0.10.9"
serde = { version = "=1.0.229", features = ["derive"] }
serde_json = "=1.0.154"
fs2 = "=0.4.3"
thiserror = "=1.0.69"
anyhow = "1"
fastrand = "2"
