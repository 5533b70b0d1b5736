[package]
name = "ulla_site"
version = "0.1.0"
edition = "2021"
publish = false

[dependencies]
actix-files = "0.6"
actix-identity = "0.8"
actix-multipart = "0.7"
actix-session = { version = "0.10", features = ["cookie-session"] }
actix-web = { version = "4", default-features = false, features = ["macros", "cookies"] }
askama = "0.12"
chrono = "0.4"
futures-util = "0.3"
lazy_static = "1"
rand = "0.8"
serde = { version = "1", features = ["derive"] }
serde_json = "1"
sqlx = { version = "0.8", default-features = false, features = ["runtime-tokio", "sqlite"] }
tokio = { version = "1", features = ["time", "rt", "macros"] }
