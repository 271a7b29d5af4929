[package]
name = "poker"
version = "0.1.0"
edition = "2021"
publish = false

[dependencies]
rand = "0.8"
itertools = "0.13"
argon2 = "0.5"
serde = { version = "1", features = ["derive"] }
serde_json = "1"
tokio = { version = "1", features = ["full"] }
futures = "0.3"
actix = "0.13"
actix-web = "4"
actix-web-actors = "4"
actix-cors = "0.7"
mongodb = "3"
