[package]
name = "log_scanner"
version = "0.1.0"
edition = "2021"
publish = false

[dependencies]
toml = "*"
fancy-regex = "*"
comfy-table = "*"
env_logger = "*"
log = "*"
