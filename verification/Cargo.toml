[package]
name = "rustque"
version = "0.1.0"
edition = "2021"
publish = false

[dependencies]
byteorder = "1"
flume = "0.11"
futures = "0.3"
tokio = { version = "1", features = ["rt-multi-thread", "macros", "fs", "io-util", "sync"] }
