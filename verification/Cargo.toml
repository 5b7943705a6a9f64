[package]
name = "tabol"
version = "0.1.0"
edition = "2021"
publish = false

[dependencies]
rand = "0.8"
sha2 = "0.10"
hex = "0.4"
clap = { version = "4", features = ["derive"] }
log = "0.4"
pretty_env_logger = "0.5"
