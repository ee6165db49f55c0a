[package]
name = "sidoma"
version = "0.1.0"
edition = "2021"
publish = false

[dependencies]
anyhow = "*"
clap = { version = "*", features = ["derive"] }
colored = "*"
dirs = "*"
glob = "*"
minijinja = "*"
path-clean = "*"
pathdiff = "*"
toml = "*"
