[package]
name = "dfwad"
version = "0.1.0"
edition = "2021"
publish = false

[dependencies]
encoding_rs = "*"
flate2 = "*"
clap = { version = "*", features = ["derive"] }
walkdir = "*"
