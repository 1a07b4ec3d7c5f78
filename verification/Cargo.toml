[package]
name = "tide_clean_path"
version = "0.1.0"
edition = "2021"
publish = false

[dependencies]
tide = "0.16"

[dev-dependencies]
path-clean = "0.1"
