[package]
name = "cfgcut"
version = "0.1.0"
edition = "2021"
publish = false

[dependencies]
regex = "*"
glob = "*"
serde = { version = "*", features = ["derive"] }
serde_json = "*"
