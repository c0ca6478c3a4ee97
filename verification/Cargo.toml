[package]
name = "irisnotes"
version = "0.1.0"
edition = "2021"
publish = false

[dependencies]
clap = { version = "4", features = ["derive"] }
colored = "*"
dirs = "*"
image = { version = "*", default-features = false, features = ["png"] }
notify = "*"
rusqlite = "*"
serde = { version = "1", features = ["derive"] }
serde_json = "1"
toml = "*"
