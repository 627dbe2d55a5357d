[package]
name = "januslens"
version = "0.1.0"
edition = "2021"
publish = false

[dependencies]
git2 = { version = "*", default-features = false }
serde = { version = "1", features = ["derive"] }
serde_json = "1"
thiserror = "1"
dirs = "*"
chrono = "0.4"
log = "0.4"
env_logger = "*"
lazy_static = "1"
colored = "*"

[dev-dependencies]
tempfile = "3"
