[package]
name = "block_store"
version = "0.1.0"
edition = "2021"
publish = false

[dependencies]
rand = "0.8"
tokio = { version = "1", default-features = false, features = ["rt"] }

[dev-dependencies]
tempfile = "3"
