[package]
name = "scanner_core"
version = "0.1.0"
edition = "2021"
publish = false

[dependencies]
hex = "0.4"
tokio = { version = "1", default-features = false, features = ["rt", "sync"] }
