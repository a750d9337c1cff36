[package]
name = "rwatch"
version = "0.1.0"
edition = "2021"
publish = false

[dependencies]
sysinfo = "=0.39.6"
chrono = "=0.4.45"
rsntp = "=4.1.2"
signal-hook = "=0.3.18"
clap = { version = "=4.6.7", features = ["derive"] }
env_logger = "=0.11.11"
log = "=0.4.35"
