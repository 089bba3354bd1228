[package]
name = "sonic_search"
version = "0.1.0"
edition = "2021"
publish = false

[dependencies]
anyhow = "1"
clap = { version = "4", features = ["derive"] }
fuzzy-matcher = "0.3"
ignore = "0.4"
