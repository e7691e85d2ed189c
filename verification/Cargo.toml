[package]
name = "mdserve"
version = "0.1.0"
edition = "2021"
publish = false

[dependencies]
markdown = "1"
anyhow = "*"
axum = { version = "*", features = ["ws"] }
clap = { version = "*", features = ["derive"] }
futures-util = "*"
minijinja = "*"
notify = "*"
serde = { version = "*", features = ["derive"] }
serde_json = "*"
tokio = { version = "*", features = ["full"] }
tower-http = { version = "*", features = ["cors"] }
