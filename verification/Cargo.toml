[package]
name = "dynamite"
version = "0.1.0"
edition = "2021"
publish = false

[dependencies]
im = "15"
ulid = "1"
regex = "1"
taffy = "0.7"
scraper = "*"
mlua = { version = "0.10", features = ["lua54", "vendored"] }
reqwest = { version = "0.12", default-features = false, features = ["blocking"] }
serde_json = "1"
log = "0.4"
env_logger = "0.11"
