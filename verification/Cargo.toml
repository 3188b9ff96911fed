[package]
name = "gwatch"
version = "0.1.0"
edition = "2021"
publish = false

[dependencies]
anyhow = "*"
chrono = "*"
clap = { version = "4", features = ["derive"] }
clap_mangen = "*"
clap-cargo = { version = "*", features = ["clap"] }
crossterm = "*"
itertools = "*"
ratatui = "0.29"
serde = { version = "1", features = ["derive"] }
toml = "*"
