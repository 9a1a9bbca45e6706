[package]
name = "fleet_coordinator"
version = "0.1.0"
edition = "2021"
publish = false

[dependencies]
sha2 = "0.10"
risc0-zkvm = "*"
axum = { version = "0.7", features = ["macros"] }
tokio = { version = "1", features = ["full"] }
tokio-stream = { version = "0.1", features = ["sync"] }
futures = "0.3"
serde = { version = "1", features = ["derive"] }
