[package]
name = "treemon"
version = "0.1.0"
edition = "2021"
publish = false

[dependencies]
histogram = "0.11"
anyhow = "*"
clap = { version = "*", features = ["derive"] }
env_logger = "*"
gethostname = "*"
rayon = "*"
rouille = "*"
serde = { version = "*", features = ["derive"] }
