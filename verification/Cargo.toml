[package]
name = "selector"
version = "0.1.0"
edition = "2021"
publish = false

[dependencies]
anyhow = "=1.0.104"
env_logger = "=0.11.11"
log = "=0.4.35"
serde = { version = "=1.0.229", features = ["derive"] }
smithay-client-toolkit = { version = "=0.21.1", default-features = false }
toml = "=1.1.8"
wayland-client = "=0.31.15"
