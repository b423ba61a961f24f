[package]
name = "rustitude"
version = "0.1.0"
edition = "2021"
publish = false

[dependencies]
ehttp = "*"
tokio = { version = "*", features = ["rt-multi-thread"] }
