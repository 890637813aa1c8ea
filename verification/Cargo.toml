[package]
name = "chunked_stats"
version = "0.1.0"
edition = "2021"
publish = false

[dependencies]
rustc-hash = "2"
tokio = { version = "1", features = ["fs", "io-util", "macros", "rt-multi-thread", "sync"] }
