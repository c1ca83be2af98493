[package]
name = "pfind"
version = "0.1.0"
edition = "2021"
publish = false

[dependencies]
clap = { version = "*", features = ["derive"] }
walkdir = "*"
chrono = "*"
num_cpus = "*"
poppler = "*"
