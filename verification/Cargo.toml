[package]
name = "wordgrep"
version = "0.1.0"
edition = "2021"
publish = false

[dependencies]
bit-set = "*"
clap = { version = "*", features = ["derive"] }
