[package]
name = "sszt"
version = "0.1.0"
edition = "2021"
publish = false

[dependencies]
ethereum-types = "*"
clap = "*"
hex = "*"
serde_json = { version = "*", features = ["preserve_order"] }
serde_yaml = "*"
