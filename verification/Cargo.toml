[package]
name = "mdmodels"
version = "0.1.0"
edition = "2021"
publish = false

[dependencies]
regex = "=1.13.1"
convert_case = "=0.12.0"
serde = { version = "=1.0.229", features = ["derive"] }
serde_json = "=1.0.154"
toml = "=1.1.8"
pulldown-cmark = { version = "=0.12.2", default-features = false }
gray_matter = "=0.2.9"
serde_yaml = "=0.9.34"
indexmap = { version = "=2.14.2", features = ["serde"] }
petgraph = "=0.8.3"
jsonschema = { version = "*", default-features = false }
