[package]
name = "rubx"
version = "0.1.0"
edition = "2021"
publish = false

[dependencies]
chrono = "0.4"
clap = { version = "3", features = ["cargo"] }
num_cpus = "1"
once_cell = "1"
rand = "0.8"
regex = "1"
reqwest = { version = "0.11", default-features = false, features = ["blocking"] }
