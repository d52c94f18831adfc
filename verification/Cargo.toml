[package]
name = "osrs_pathfinder"
version = "0.1.0"
edition = "2021"
publish = false

[dependencies]
anyhow = "*"
rs-cache = "*"
serde = { version = "*", features = ["derive"] }
serde_json = "*"
