[package]
name = "generator_core"
version = "0.1.0"
edition = "2021"
publish = false

[dependencies]
anyhow = "1"
rand = "0.9"
tinyset = "0.5"
priority-queue = "2"
svg = "0.18"
clap = { version = "4", features = ["derive"] }
