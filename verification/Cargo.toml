[package]
name = "dee"
version = "0.1.0"
edition = "2021"
publish = false

[dependencies]
async-trait = "=0.1.92"
log = "=0.4.35"
polyglot-sql = { version = "=0.13.5", default-features = false, features = ["generate", "stacker", "dialect-bigquery", "dialect-duckdb", "dialect-mysql", "dialect-postgresql", "dialect-sqlite"] }
serde = { version = "=1.0.229", features = ["derive"] }
serde_json = "=1.0.154"
