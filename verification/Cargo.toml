[package]
name = "amina_core"
version = "0.1.0"
edition = "2021"
publish = false

[dependencies]
serde = { version = "1", features = ["derive"] }
serde_json = "1"
yaml-rust = "0.4"
threadpool = "1"
log = "0.4"
env_logger = "0.10"
chrono = "0.4"
liner = "*"
reqwest = { version = "0.12", default-features = false, features = ["blocking", "json"] }
tokio = { version = "1", features = ["rt-multi-thread", "sync"] }
warp = "0.3"
futures = "0.3"
bytes = "1"
