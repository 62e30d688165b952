[package]
name = "httplogger"
version = "0.1.0"
edition = "2021"
publish = false

[dependencies]
anyhow = "1"
base64 = "0.22"
boring = "*"
boring-sys = "*"
brotli = "*"
chrono = "0.4"
flate2 = "1"
foreign-types = "0.5"
http-body-util = "0.1"
hudsucker = "*"
hyper-boring = "*"
hyper-util = { version = "0.1", features = ["client-legacy", "http1", "http2", "tokio"] }
rusqlite = { version = "*", features = ["bundled"] }
serde = { version = "1", features = ["derive"] }
serde_json = "1"
serde_yaml = "0.9"
tokio = { version = "1", features = ["full"] }
tokio-boring = "*"
tracing = "0.1"
tracing-subscriber = { version = "0.3", features = ["env-filter"] }
url = "2"
webpki-root-certs = "*"
