[package]
name = "forecast_cache"
version = "0.1.0"
edition = "2021"
publish = false

[dependencies]
scraper = "*"
axum = "*"
tokio = { version = "*", features = ["full"] }
redis = { version = "*", features = ["tokio-comp"] }
redis_pool = "*"
surf = { version = "*", default-features = false, features = ["h1-client-rustls"] }
serde = { version = "*", features = ["derive"] }
serde_json = "*"
