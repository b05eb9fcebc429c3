[package]
name = "treebee"
version = "0.1.0"
edition = "2021"
publish = false

[dependencies]
lzf = "*"
serde = { version = "1", features = ["derive"] }
serde_derive = "1"
toml = "*"
env_logger = "*"
log = "*"
