[package]
name = "search"
version = "0.1.0"
edition = "2021"
publish = false

[dependencies]
regex = "1"
rust-stemmers = "1"
fxhash = "0.2"
walkdir = "2"
rayon = "1"
indicatif = { version = "0.17", features = ["rayon"] }
lru = "*"
log = "0.4"
env_logger = "*"
serde = { version = "1", features = ["derive"] }
axum = "0.7"
tokio = { version = "1", features = ["full"] }

[dev-dependencies]
rand = "0.8"
