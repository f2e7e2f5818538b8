[package]
name = "efflux"
version = "0.1.0"
edition = "2021"
publish = false

[dependencies]
anyhow = "=1.0.104"
axum = { version = "=0.8.9", features = ["multipart"] }
chrono = { version = "=0.4.45", features = ["serde"] }
dotenvy = "=0.15.7"
hmac = "=0.12.1"
image = { version = "=0.25.10", default-features = false, features = ["jpeg", "png", "webp", "gif", "bmp", "tiff"] }
ort = { version = "=2.0.0-rc.15", default-features = false, features = ["std"] }
pbkdf2 = "=0.12.2"
serde = { version = "=1.0.229", features = ["derive"] }
serde_json = "=1.0.154"
sha2 = "=0.10.9"
sqlx = { version = "=0.8.6", default-features = false, features = ["runtime-tokio", "postgres", "uuid", "chrono", "macros", "migrate"] }
subtle = "=2.6.1"
thiserror = "=2.0.21"
tokenizers = "=0.21.4"
tokio = { version = "=1.54.1", features = ["full"] }
tokio-util = { version = "=0.7.20", features = ["io"] }
tower = "=0.5.3"
tower-http = { version = "=0.6.11", features = ["compression-gzip", "cors", "fs", "set-header", "trace"] }
tracing = "=0.1.44"
tracing-subscriber = { version = "=0.3.23", features = ["env-filter", "json"] }
uuid = { version = "=1.29.1", features = ["v4", "serde"] }
zip = { version = "=2.6.1", default-features = false, features = ["deflate"] }
