[package]
name = "waragent_simulation"
version = "0.1.0"
edition = "2021"
publish = false

[dependencies]
serde = { version = "1", features = ["derive"] }
serde_json = "1"
csv = "1"
rand = "0.8"
clap = { version = "4", features = ["derive"] }
