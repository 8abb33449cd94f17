[package]
name = "dirwatch"
version = "0.1.0"
edition = "2021"
publish = false

[dependencies]
chrono = "*"
notify = "*"
crossbeam-channel = "*"
clap = { version = "*", features = ["derive"] }
anyhow = "*"
dirs = "*"
