[package]
name = "lme_server"
version = "0.1.0"
edition = "2021"
publish = false

[dependencies]
nalgebra = "*"
axum = "*"
serde = { version = "*", features = ["derive"] }
tokio = { version = "*", features = ["full"] }
