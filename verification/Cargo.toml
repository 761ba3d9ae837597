[package]
name = "kvstore"
version = "0.1.0"
edition = "2021"
publish = false

[dependencies]
dashmap = "*"
tokio = { version = "*", features = ["rt-multi-thread", "net", "io-util", "macros", "signal", "time", "sync"] }
clap = { version = "*", features = ["derive"] }
anyhow = "*"
