[package]
name = "varpath"
version = "0.1.0"
edition = "2021"
publish = false

[dependencies]
winnow = "0.5"
clap = { version = "4", features = ["derive"] }
color-eyre = "0.6"
env_logger = "0.11"
eyre = "0.6"
log = "0.4"
serde = { version = "1", features = ["derive"] }
thiserror = "1"
