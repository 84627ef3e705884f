[package]
name = "sprint_report"
version = "0.1.0"
edition = "2021"
publish = false

[dependencies]
dirs = "=7.0.0"
goji = "=0.1.1"
hyper = "=0.9.18"
prettytable-rs = "=0.10.0"
serde = "=1.0.229"
serde_derive = "=1.0.229"
serde_json = "=1.0.151"
toml = "=1.1.7"
