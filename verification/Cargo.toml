[package]
name = "concept_search"
version = "0.1.0"
edition = "2021"
publish = false

[dependencies]
actix-web = "=4.15.0"
confik = "=0.15.13"
deadpool-postgres = { version = "=0.14.2", features = ["serde"] }
log = "=0.4.34"
qdrant-client = "=1.19.0"
serde = { version = "=1.0.229", features = ["derive"] }
serde_json = "=1.0.151"
tokio-pg-mapper = "=0.2.0"
tokio-postgres = "=0.7.18"
uuid = "=1.27.0"
