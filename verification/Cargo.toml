[package]
name = "quill"
version = "0.1.0"
edition = "2021"
publish = false

[dependencies]
anyhow = "=1.0.104"
bincode = "=1.3.3"
derivative = "=2.2.0"
serde = { version = "=1.0.229", features = ["derive"] }
wasmer = "=1.0.2"
wasmer-wasi = "=1.0.2"
