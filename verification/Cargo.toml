[package]
name = "brain"
version = "0.1.0"
edition = "2021"
publish = false

[dependencies]
chrono = "=0.4.45"
serde = { version = "=1.0.229", features = ["derive"] }
serde_json = "=1.0.154"
