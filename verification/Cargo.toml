[package]
name = "bittorrent"
version = "0.1.0"
edition = "2021"
publish = false

[dependencies]
sha1 = "0.10"
tokio = { version = "1", features = ["net", "io-util", "rt-multi-thread", "macros", "fs"] }
reqwest = { version = "0.12", default-features = false }
