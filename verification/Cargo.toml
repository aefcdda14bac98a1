[package]
name = "stacks_metrics"
version = "0.1.0"
edition = "2021"
publish = false

[dependencies]
clap = { version = "4", features = ["derive"] }
hex = "0.4"
indicatif = "0.17"
rusqlite = "0.31"
sha2 = "0.10"
