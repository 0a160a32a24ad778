[package]
name = "refolder"
version = "0.1.0"
edition = "2021"

[dependencies]
anyhow = "=1.0.104"
clap = { version = "=4.6.7", features = ["derive"] }
globwalk = "=0.9.1"

[dev-dependencies]
tempfile = "3"
