[package]
name = "bittorrent"
version = "0.1.0"
edition = "2021"
publish = false

[dependencies]
sha1 = "*"
hex = "*"
serde_urlencoded = "*"
anyhow = "*"
serde_json = "*"
clap = { version = "*", features = ["derive"] }
tokio = { version = "*", features = ["rt-multi-thread", "macros", "net", "fs", "io-util", "sync"] }
reqwest = { version = "*", default-features = false }
