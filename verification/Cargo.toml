[package]
name = "iro"
version = "0.1.0"
edition = "2021"
publish = false

[dependencies]
anyhow = "*"
clap = { version = "*", features = ["derive"] }
image = "*"
palette = "*"
serde = { version = "*", features = ["derive"] }
serde_yaml = "*"
