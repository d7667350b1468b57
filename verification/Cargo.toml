[package]
name = "charta"
version = "0.1.0"
edition = "2021"
publish = false

[dependencies]
serde_json = "1"
thiserror = "1"
tokio = { version = "1", features = ["sync", "fs"] }
