[package]
name = "walrus"
version = "0.1.0"
edition = "2021"
publish = false

[dependencies]
atoi = "2"
itoa = "1"
bytes = "1"
tokio = { version = "1", features = ["full"] }
