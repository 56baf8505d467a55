[package]
name = "mtime_rewind"
version = "0.1.0"
edition = "2021"
publish = false

[dependencies]
sha2 = "*"
anyhow = "*"
clap = { version = "*", features = ["derive"] }
env_logger = "*"
filetime = "*"
log = "*"
walkdir = "*"
