[package]
name = "stoichkit"
version = "0.6.0"
edition = "2021"
publish = false

[dependencies]
periodic-table-on-an-enum = "*"
clap = { version = "*", features = ["derive"] }
serde = { version = "*", features = ["derive"] }
serde_json = "*"
log = "*"
env_logger = "*"
