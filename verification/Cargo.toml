[package]
name = "dozor"
version = "0.1.0"
edition = "2021"
publish = false

[dependencies]
clap = { version = "=4.6.7", features = ["derive"] }
semver = "=1.0.28"
serde = { version = "=1.0.229", features = ["derive"] }
serde_json = "=1.0.154"
sha2 = "0.11"
toml = "=0.8.23"
zip = { version = "=2.6.1", default-features = false, features = ["deflate"] }
