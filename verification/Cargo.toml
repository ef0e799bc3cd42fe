[package]
name = "protohackers"
version = "0.1.0"
edition = "2021"
publish = false

[dependencies]
json = "*"
primal = "*"
threadpool = "*"
log = "*"
env_logger = "*"
clap = { version = "*", features = ["derive"] }
