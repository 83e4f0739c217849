[package]
name = "notemancy_server"
version = "0.1.0"
edition = "2021"
publish = false

[dependencies]
chrono = "=0.4.45"
meilisearch-sdk = "0.33.0"
once_cell = "=1.21.4"
rocket = { version = "0.5.2", features = ["json"] }
rocket_cors = "0.6.0"
serde = { version = "=1.0.229", features = ["derive"] }
serde_json = "=1.0.154"
serde_yaml = "=0.9.34"
