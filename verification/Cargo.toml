[package]
name = "rsm"
version = "0.1.0"
edition = "2021"
publish = false

[dependencies]
clap = { version = "*", features = ["derive"] }
colored = "*"
directories = "*"
glob = "*"
hostname = "*"
indicatif = "*"
rayon = "*"
serde = { version = "*", features = ["derive"] }
thiserror = "*"
toml = "*"
tracing = "*"
tracing-subscriber = { version = "*", features = ["env-filter"] }
walkdir = "*"
