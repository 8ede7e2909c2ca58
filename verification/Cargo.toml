[package]
name = "resource_collection_simulation"
version = "0.1.0"
edition = "2021"
publish = false

[dependencies]
rand = "0.9"
tokio = { version = "1", features = ["sync", "rt", "rt-multi-thread", "macros", "time"] }
noise = "0.9"
ratatui = "0.29"
crossterm = "0.28"
anyhow = "1"
