[package]
name = "gazetteer"
version = "0.1.0"
edition = "2021"
publish = false

[dependencies]
tokenizers = "*"
csv = "*"
rayon = "*"
serde = { version = "*", features = ["derive"] }
serde_json = "*"
anyhow = "*"
flate2 = "*"
glob = "*"
toml = "*"
clap = { version = "*", features = ["derive"] }
env_logger = "*"
actix-web = "*"
actix-files = "*"
