[package]
name = "webcrawl"
version = "0.1.0"
edition = "2021"
publish = false

[dependencies]
linkify = "*"
tokio = { version = "*", features = ["full"] }
reqwest = { version = "*", default-features = false }
