[package]
name = "barowiki"
version = "0.1.0"
edition = "2021"
publish = false

[dependencies]
csv = "*"
roxmltree = "*"
walkdir = "*"
log = "*"
env_logger = "*"
