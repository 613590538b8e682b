[package]
name = "puzzles"
version = "0.1.0"
edition = "2021"
publish = false

[dependencies]
anyhow = "1"
crossbeam = "0.8"
env_logger = "0.9"
log = "0.4"
thiserror = "1.0"
