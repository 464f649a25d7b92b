[package]
name = "wrr_queue"
version = "0.1.0"
edition = "2021"
publish = false

[dependencies]
num = "0.4"
tokio = { version = "1", default-features = false, features = ["sync"] }
