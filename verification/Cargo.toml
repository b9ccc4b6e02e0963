[package]
name = "resp_codec"
version = "0.1.0"
edition = "2021"
publish = false

[dependencies]
bytes = "1"
memchr = "2"
futures = "0.3"
tokio = { version = "1", features = ["net", "rt"] }
tokio-util = { version = "0.7", features = ["codec"] }
