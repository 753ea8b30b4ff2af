[package]
name = "bittorrent"
version = "0.1.0"
edition = "2021"
publish = false

[dependencies]
ring = "*"
rand = "*"
hex = "*"
tokio = { version = "*", features = ["fs", "rt-multi-thread", "macros"] }
reqwest = { version = "*", default-features = false }
clap = { version = "*", features = ["derive"] }
