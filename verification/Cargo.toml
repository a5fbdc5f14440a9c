[package]
name = "lms_server"
version = "0.1.0"
edition = "2021"
publish = false

[dependencies]
unicode-segmentation = "1"
lopdf = "*"
docx-rs = "*"
axum = "0.7"
tokio = { version = "1", features = ["full"] }
tower-http = { version = "0.5", features = ["cors"] }
serde = { version = "1", features = ["derive"] }
serde_json = "1"
sqlx = { version = "0.7", default-features = false, features = ["runtime-tokio", "sqlite", "macros"] }
reqwest = { version = "0.12", default-features = false, features = ["json", "stream"] }
uuid = { version = "1", features = ["v4"] }
chrono = "0.4"
walkdir = "2"
tracing = "0.1"
tracing-subscriber = "0.3"
clap = { version = "4", features = ["derive"] }
dirs = "5"
shellexpand = "3"
anyhow = "1"
bincode = "1"
futures-util = "0.3"
