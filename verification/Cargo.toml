[package]
name = "gototranscoder"
version = "0.1.0"
edition = "2021"
publish = false

[dependencies]
json = "0.12"
log = "0.4"
clap = { version = "4", features = ["derive"] }
env_logger = "0.11"
