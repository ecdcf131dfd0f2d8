[package]
name = "alkyon"
version = "0.1.0"
edition = "2021"
publish = false

[dependencies]
async-stream = "=0.3.6"
async-trait = "=0.1.92"
axum = { version = "=0.8.9", features = ["ws"] }
base64 = "=0.22.1"
calamine = { version = "=0.30.1", features = ["dates"] }
chrono = { version = "=0.4.45", default-features = false, features = ["std", "clock"] }
directories = "=6.0.0"
futures = "=0.3.34"
keyring = { version = "=3.6.3", default-features = false }
mime_guess = "=2.0.5"
mongodb = { version = "=3.9.1", default-features = false, features = ["compat-3-0-0", "rustls-tls"] }
portable-pty = "=0.9.0"
reqwest = { version = "=0.12.28", default-features = false, features = ["json", "rustls-tls"] }
rust_decimal = { version = "=1.43.0", default-features = false, features = ["std"] }
rust-embed = "=8.13.0"
serde = { version = "=1.0.229", features = ["derive"] }
serde_json = { version = "=1.0.154", features = ["preserve_order"] }
sha2 = "=0.10.9"
sqlx = { version = "=0.8.6", default-features = false, features = ["runtime-tokio", "tls-rustls-ring-webpki", "postgres", "mysql", "chrono", "uuid", "rust_decimal", "json"] }
thiserror = "=2.0.21"
tiberius = { version = "=0.12.3", default-features = false, features = ["tds73", "rustls", "chrono", "rust_decimal", "sql-browser-tokio"] }
tokio = { version = "=1.54.1", features = ["rt-multi-thread", "macros", "net", "sync", "time", "fs", "signal", "io-util"] }
tokio-util = { version = "=0.7.20", features = ["compat"] }
tracing = "=0.1.44"
tracing-subscriber = { version = "=0.3.23", default-features = false, features = ["fmt"] }
uuid = { version = "=1.29.0", features = ["v4"] }
