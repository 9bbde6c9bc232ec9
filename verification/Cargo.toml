[package]
name = "search_core"
version = "0.1.0"
edition = "2021"
publish = false

[dependencies]
axum = { version = "0.8", features = ["macros"] }
chrono = "0.4"
dotenv = "0.15"
float-ord = "0.3"
lazy_static = "1"
md5 = "0.7"
reqwest = { version = "0.12", default-features = false, features = ["rustls-tls"] }
scraper = "*"
serde = { version = "1", features = ["derive"] }
tokio = { version = "1", features = ["full"] }
