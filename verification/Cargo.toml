[package]
name = "fanout"
version = "0.1.0"
edition = "2021"
publish = false

[dependencies]
rand = "0.8"
actix-web = "4"
actix-cors = "0.7"
tokio = { version = "1", features = ["macros", "rt-multi-thread", "time"] }
bb8-redis = "*"
futures = "0.3"
sqlx = { version = "0.8", default-features = false, features = ["runtime-tokio", "postgres"] }
serde = { version = "1", features = ["derive"] }
serde_json = "1"
chrono = "0.4"
dotenvy = "0.15"
env_logger = "0.11"
