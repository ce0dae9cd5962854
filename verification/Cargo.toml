[package]
name = "mkline"
version = "0.1.0"
edition = "2021"
publish = false

[dependencies]
tokio = { version = "1", features = ["rt"] }
junction = "1"
trash = { version = "3", default-features = false }
