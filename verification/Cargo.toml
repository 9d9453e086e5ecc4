[package]
name = "confset"
version = "0.1.0"
edition = "2021"
publish = false

[dependencies]
anyhow = "*"
base64 = "*"
clap = { version = "*", features = ["derive"] }
ctrlc = "*"
dirs = "*"
fs2 = "*"
notify = "*"
pklr = "*"
pollster = "*"
serde = { version = "*", features = ["derive"] }
serde_json = "*"
serde_yaml_ng = "*"
sha2 = "*"
tempfile = "*"
toml = "*"
