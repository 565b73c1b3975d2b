[package]
name = "ucp"
version = "0.1.0"
edition = "2021"
publish = false

[dependencies]
tokio = { version = "=1.53.2", features = ["net", "sync", "time", "rt", "rt-multi-thread", "macros"] }
