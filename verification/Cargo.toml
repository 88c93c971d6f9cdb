[package]
name = "omacal"
version = "0.1.0"
edition = "2021"
publish = false

[dependencies]
anyhow = "1"
jiff = "0.2"
reqwest = { version = "0.12", default-features = false, features = ["rustls-tls"] }
serde = { version = "1", features = ["derive"] }
serde_json = "1"
sqlx = { version = "0.8", default-features = false, features = ["runtime-tokio", "sqlite"] }
tracing = "0.1"
uuid = { version = "1", features = ["v4"] }
