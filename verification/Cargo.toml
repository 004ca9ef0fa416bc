[package]
name = "request-batcher"
version = "0.1.0"
edition = "2021"
publish = false

[dependencies]
tokio = { version = "1", features = ["sync", "time", "rt"] }
async-trait = "0.1"
thiserror = "1"
