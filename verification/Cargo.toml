[package]
name = "resp_decoder"
version = "0.1.0"
edition = "2021"
publish = false

[dependencies]
bytes = "1"
combine = "4"
tokio = { version = "1", features = ["io-util"] }
tokio-util = { version = "0.7", features = ["codec"] }
