[package]
name = "tidyrs"
version = "0.1.0"
edition = "2021"
publish = false

[dependencies]
anyhow = "1"
blake3 = { version = "1", features = ["pure"] }
clap = { version = "4", features = ["derive"] }
crossterm = "0.28"
directories = "5"
ignore = "0.4"
ratatui = "0.29"
redb = "2"
serde = { version = "1", features = ["derive"] }
serde_json = "1"
trash = "5"
