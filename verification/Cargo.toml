[package]
name = "spqx"
version = "0.1.0"
edition = "2021"
publish = false

[dependencies]
anyhow = "1"
base64 = "0.22"
clap = { version = "4", features = ["derive", "env"] }
clap_complete = "4"
env_logger = "0.11"
log = "0.4"
rodio = { version = "0.20", default-features = false }
schemars = "0.8"
serde = { version = "1", features = ["derive"] }
serde_json = "1"
toml = "0.8"
