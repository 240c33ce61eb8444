[package]
name = "relaybay"
version = "0.1.0"
edition = "2021"
publish = false

[dependencies]
bytes = "1"
thiserror = "2"
tokio = { version = "1", features = ["io-util", "macros", "net", "rt", "rt-multi-thread", "sync", "time", "signal"] }
tracing = "0.1"
tracing-subscriber = "0.3"
