[package]
name = "tomlp"
version = "0.1.0"
edition = "2021"
publish = false

[dependencies]
chrono = { version = "0.4.38", default-features = false, features = ["std"] }
unicode-segmentation = "~1.11.0"
