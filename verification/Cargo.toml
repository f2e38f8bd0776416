[package]
name = "yafr"
version = "0.1.0"
edition = "2021"
publish = false

[dependencies]
mime = "=0.3.17"
serde = { version = "*", features = ["derive"] }
serde_json = "*"
serde_with = "*"
feed-rs = "*"
sqlx = { version = "=0.8.6", default-features = false, features = ["sqlite", "runtime-tokio"] }
actix-web = { version = "*", default-features = false, features = ["macros"] }
env_logger = "*"
