[package]
name = "kilojoule"
version = "0.1.0"
edition = "2021"
publish = false

[dependencies]
base64 = "*"
csv = "*"
rustyline = "*"
serde = "*"
serde_json = "*"
serde_yaml = "*"
toml = "*"
