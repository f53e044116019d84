[package]
name = "ssss_rs"
version = "0.1.0"
edition = "2021"
publish = false

[dependencies]
rand = "0.8"
num-bigint = { version = "0.4", features = ["rand"] }
clap = { version = "4", features = ["derive"] }
