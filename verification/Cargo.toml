[package]
name = "find_me_pls"
version = "0.1.0"
edition = "2021"
publish = false

[dependencies]
distance = "*"
axum = "0.6"
tokio = { version = "1", features = ["full"] }
sqlx = { version = "*", features = ["sqlite", "runtime-tokio"] }
serde = { version = "1", features = ["derive"] }
serde_json = "1"
base64 = "*"
thiserror = "1"
