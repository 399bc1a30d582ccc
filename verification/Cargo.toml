[package]
name = "settings_core"
version = "0.1.0"
edition = "2021"
publish = false

[dependencies]
percent-encoding = "2"
serde = { version = "1", features = ["derive"] }
serde_json = "1"
toml = "0.8"
argh = "0.1"
dns-lookup = "2"
rand = "0.8"
