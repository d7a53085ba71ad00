[package]
name = "size_check"
version = "0.1.0"
edition = "2021"
publish = false

[dependencies]
clap = { version = "*", features = ["derive"] }
indicatif = "*"
serde = { version = "*", features = ["derive"] }
serde_json = "*"
walkdir = "*"
