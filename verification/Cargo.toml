[package]
name = "runner"
version = "0.1.0"
edition = "2021"
publish = false

[dependencies]
bit-vec = "0.8"
rand = "0.9"
clap = { version = "4", features = ["derive"] }
color-print = "0.3"
itertools = "0.14"
