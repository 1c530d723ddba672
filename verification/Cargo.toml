[package]
name = "aoc25"
version = "0.1.0"
edition = "2021"
publish = false

[dependencies]
clap = { version = "4", features = ["derive"] }
clap-verbosity-flag = "*"
env_logger = "*"
log = "*"
thiserror = "*"
