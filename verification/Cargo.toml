[package]
name = "rust_hole"
version = "0.1.0"
edition = "2021"
publish = false

[dependencies]
tokio = { version = "1", features = ["rt-multi-thread", "net", "sync", "time", "macros"] }
hickory-resolver = "0.24"
