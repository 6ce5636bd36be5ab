[package]
name = "karaoke_queue"
version = "0.1.0"
edition = "2021"
publish = false

[dependencies]
anyhow = "*"
csv = "*"
sha256 = "*"
time = { version = "*", features = ["formatting"] }
tokio = { version = "*", features = ["rt-multi-thread", "sync", "fs", "io-util", "macros"] }
uuid = { version = "*", features = ["v4"] }
