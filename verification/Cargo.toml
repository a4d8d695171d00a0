[package]
name = "bunkatsu"
version = "0.1.0"
edition = "2021"
publish = false

[dependencies]
uuid = { version = "*", features = ["v4"] }
unicode-segmentation = "*"
