[package]
name = "dap_transport"
version = "0.1.0"
edition = "2021"
publish = false

[dependencies]
log = "*"
env_logger = "*"
serde_json = "*"
