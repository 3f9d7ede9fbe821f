[package]
name = "dyd"
version = "0.1.0"
edition = "2021"
publish = false

[dependencies]
clap = { version = "*", features = ["derive", "env"] }
envsubst = "*"
indexmap = "*"
ratatui = { version = "*", default-features = false }
serde = { version = "*", features = ["derive"] }
toml = "*"
