[package]
name = "lepatch"
version = "0.1.0"
edition = "2021"
publish = false

[dependencies]
blake3 = "*"
fastcdc = "*"
clap = { version = "*", features = ["derive"] }
walkdir = "*"
