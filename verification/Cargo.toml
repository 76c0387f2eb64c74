[package]
name = "soundprint"
version = "0.1.0"
edition = "2021"
publish = false

[dependencies]
easyfft = "*"
clap = { version = "*", features = ["derive"] }
env_logger = "*"
log = "*"
rayon = "*"
serde = { version = "*", features = ["derive"] }
serde_json = "*"
