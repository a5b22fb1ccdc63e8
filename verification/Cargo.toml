[package]
name = "makemore_rust"
version = "0.1.0"
edition = "2021"
publish = false

[dependencies]
alpha-micrograd-rust = "*"
clap = { version = "4", features = ["derive"] }
indicatif = "*"
rand = "0.9"
