[package]
name = "kgls"
version = "0.1.0"
edition = "2021"
publish = false

[dependencies]
clap = { version = "=4.6.7", features = ["derive"] }
serde = { version = "=1.0.229", features = ["derive"] }
serde_yaml = "0.9"
tokio = { version = "=1.54.1", features = ["rt", "rt-multi-thread"] }
futures = "=0.3.34"
log = "=0.4.34"
env_logger = "=0.11.11"
wild = "=2.2.1"
libc = "=0.2.191"
