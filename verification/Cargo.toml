[package]
name = "compress_lib"
version = "0.1.0"
edition = "2021"
publish = false

[dependencies]
serde = { version = "*", features = ["derive"] }
ciborium = "*"
clap = { version = "*", features = ["derive"] }
