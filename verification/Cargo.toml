[package]
name = "pssh"
version = "0.1.0"
edition = "2021"
publish = false

[dependencies]
regex = "*"
clap = { version = "*", features = ["derive"] }
colored = "*"
dns-lookup = "*"
env_logger = "*"
log = "*"
question = "*"
rayon = "*"
whoami = "*"
