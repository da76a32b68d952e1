[package]
name = "aadc"
version = "0.1.0"
edition = "2021"
publish = false

[dependencies]
anyhow = "*"
clap = { version = "*", features = ["derive"] }
ctrlc = "*"
dirs = "*"
globset = "*"
ignore = "*"
notify = "*"
rich_rust = "*"
serde = { version = "*", features = ["derive"] }
serde_json = "*"
similar = "*"
toml = "*"
