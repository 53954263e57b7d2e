[package]
name = "arcmugbot"
version = "0.1.0"
edition = "2021"
publish = false

[dependencies]
anyhow = "=1.0.104"
dptree = "=0.5.1"
fuzzy-matcher = "=0.3.7"
lazy_static = "=1.5.1"
log = "=0.4.34"
pretty_env_logger = "=0.5.0"
priority-queue = "=2.7.0"
reqwest = { version = "=0.12.28", features = ["json"] }
serde = { version = "=1.0.229", features = ["derive"] }
serde_json = "=1.0.151"
takecell = "=0.1.1"
teloxide = { version = "=0.17.0", features = ["macros"] }
tokio = { version = "=1.53.2", features = ["full"] }
