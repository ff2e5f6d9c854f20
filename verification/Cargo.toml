[package]
name = "ambientwalrus"
version = "0.1.0"
edition = "2021"
publish = false

[dependencies]
anyhow = "1"
async-stream = "0.3"
clap = { version = "4", features = ["derive"] }
env_logger = "*"
futures = "0.3"
log = "0.4"
logind-zbus = "4"
serde = { version = "1", features = ["derive"] }
tokio = { version = "1", features = ["full"] }
tokio-stream = "0.1"
tokio-util = "0.7"
toml = "0.8"
xdg = "2"
zbus = { version = "4", default-features = false, features = ["tokio"] }
