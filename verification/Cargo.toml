[package]
name = "yagna"
version = "0.1.0"
edition = "2021"
publish = false

[dependencies]
serde = { version = "1", features = ["derive"] }
tokio = "0.1"
failure = "0.1"
log = "0.4"
anyhow = "1"
