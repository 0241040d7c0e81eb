[package]
name = "joshuto"
version = "0.1.0"
edition = "2021"
publish = false

[dependencies]
ratatui = { version = "*", default-features = false }
serde = "1"
serde_derive = "1"
termion = "*"
toml = "*"
