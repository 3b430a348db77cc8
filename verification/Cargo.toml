[package]
name = "cursor_api"
version = "0.4.0"
edition = "2021"
publish = false

[dependencies]
arc-swap = "1"
axum = "0.7"
base64-simd = "0.8"
brotli = "7"
bytes = "1"
chrono = { version = "0.4", features = ["serde"] }
dotenvy = "0.15"
flate2 = "1"
futures = "0.3"
hex = "0.4"
hmac = "0.13"
itoa = "1"
lazy_static = "1"
once_cell = "1"
parking_lot = "0.12"
prost = "0.13"
reqwest = { version = "0.12", default-features = false, features = ["stream", "rustls-tls"] }
serde = { version = "1", features = ["derive"] }
serde_json = "1"
sha2 = "0.11"
tokio = { version = "1", features = ["full"] }
tower-http = { version = "0.6", features = ["cors"] }
url = "2"
uuid = { version = "1", features = ["v4"] }
