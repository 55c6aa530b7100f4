[package]
name = "bittorrent-client"
version = "0.1.0"
edition = "2021"
publish = false

[dependencies]
clap = { version = "4", features = ["derive"] }
sha1 = "0.10"
tokio = { version = "1", features = ["full"] }
