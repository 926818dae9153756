[package]
name = "sapling"
version = "0.1.0"
edition = "2021"
publish = false

[dependencies]
typed-arena = "=2.0.2"
rand = "=0.8.8"
regex = "=1.13.1"
regex-syntax = "=0.8.11"
serde = { version = "=1.0.229", features = ["derive"] }
serde_json = "=1.0.154"
toml = "=0.8.23"
crossterm = "=0.27.0"
log = "=0.4.35"
bimap = "0.6"
