[package]
name = "idcf_client"
version = "0.1.0"
edition = "2021"
publish = false

[dependencies]
base64 = "0.13"
rust-crypto = "0.2"
serde_json = "1"
clap = "2"
reqwest = { version = "0.11", default-features = false }
tokio = { version = "1", features = ["macros", "rt-multi-thread"] }
url = "2"
log = "0.4"
env_logger = "0.9"
