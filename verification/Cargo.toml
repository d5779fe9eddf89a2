[package]
name = "rustique"
version = "0.1.0"
edition = "2021"
publish = false

[dependencies]
chrono = "0.4"
clap = { version = "4", features = ["derive"] }
comfy-table = "7"
dirs = "*"
futures = "0.3"
indicatif = "*"
num_cpus = "1"
owo-colors = "4"
serde = { version = "1", features = ["derive"] }
tokio = { version = "1", features = ["fs", "sync"] }
toml = "0.9"
tracing = "0.1"
