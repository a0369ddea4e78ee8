[package]
name = "skeletor"
version = "0.1.0"
edition = "2021"
publish = false

[dependencies]
chrono = "0.4"
clap = "4"
env_logger = "0.11"
globset = "0.4"
log = "0.4"
serde_yaml = "0.9"
termcolor = "1"
thiserror = "1"
