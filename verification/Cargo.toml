[package]
name = "human_bandwidth"
version = "0.1.0"
edition = "2021"
publish = false

[dependencies]
bandwidth = "*"
serde = "*"

[dev-dependencies]
serde_json = "*"
