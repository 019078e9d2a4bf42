[package]
name = "dotlinks"
version = "0.1.0"
edition = "2021"
publish = false

[dependencies]
anyhow = "*"
clap = { version = "*", features = ["derive"] }
directories = "*"
env_logger = "*"
log = "*"
same-file = "*"
serde = { version = "*", features = ["derive"] }
tokio = { version = "*", features = ["fs", "macros", "process", "rt-multi-thread"] }
toml = "*"
