[package]
name = "file_search"
version = "0.1.0"
edition = "2021"
publish = false

[dependencies]
clap = "3"
mdbook = { version = "0.4", default-features = false }
semver = "1"
serde_json = "1"
toml = "0.5"

[dev-dependencies]
regex = "1"
