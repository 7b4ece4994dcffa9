[package]
name = "worldsync"
version = "0.1.0"
edition = "2021"
publish = false

[dependencies]
rand = "0.9"
tokio = { version = "1", features = ["rt-multi-thread", "net", "sync", "time", "io-util", "macros"] }
anyhow = "1"
clap = { version = "4", features = ["derive"] }
