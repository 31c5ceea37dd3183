[package]
name = "prefix_miner"
version = "0.1.0"
edition = "2021"
publish = false

[dependencies]
sha1 = "0.10"
hex = "0.4"
clap = { version = "4", features = ["derive"] }
