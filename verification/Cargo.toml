[package]
name = "repo_crawler"
version = "0.1.0"
edition = "2021"
publish = false

[dependencies]
env_logger = "0.11"
graphql_client = { version = "0.14", default-features = false }
log = "0.4"
reqwest = { version = "0.12", default-features = false, features = ["blocking", "json", "rustls-tls"] }
serde = { version = "1", features = ["derive"] }
serde_json = "1"
