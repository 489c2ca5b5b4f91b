[package]
name = "financial_planner"
version = "0.1.0"
edition = "2021"
publish = false

[dependencies]
chrono = { version = "=0.4.45", features = ["serde"] }
serde = { version = "=1.0.229", features = ["derive"] }
serde_yaml = "=0.9.34"
clap = "=2.34.0"
prettytable-rs = "=0.10.0"
env_logger = "=0.10.2"
log = "=0.4.34"
