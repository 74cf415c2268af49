[package]
name = "tuirunner"
version = "0.1.0"
edition = "2021"
publish = false

[dependencies]
ansi-to-tui = "7"
clap = { version = "4", features = ["derive"] }
clap_complete = "4"
color-eyre = "0.6"
crossterm = "0.28"
ratatui = "0.29"
schemars = "0.8"
serde = { version = "1", features = ["derive"] }
serde_json = "1"
serde_yaml = "0.9"
tokio = { version = "1", features = ["full"] }
toml = "0.8"
