[package]
name = "microci"
version = "0.1.0"
edition = "2021"
publish = false

[dependencies]
regex = "=1.13.1"
snailquote = "=0.3.1"
serde = { version = "=1.0.229", features = ["derive"] }
serde_json = "=1.0.154"
serde_yaml = "=0.9.34"
anyhow = "=1.0.104"
tokio = { version = "=1.54.1", features = ["rt-multi-thread", "macros", "fs", "io-util", "io-std"] }
clap = { version = "=4.6.7", features = ["derive"] }
log = "=0.4.35"
pretty_env_logger = "=0.5.0"
nom = "7"
