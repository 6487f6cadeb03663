[package]
name = "financials"
version = "0.1.0"
edition = "2021"
publish = false

[dependencies]
chrono = "0.4"
csv = "1"
uuid = { version = "1", features = ["v7"] }
serde = { version = "1", features = ["derive"] }
serde_json = "1"
anyhow = "1"
axum = { version = "0.8", features = ["multipart"] }
axum-extra = { version = "0.10", features = ["cookie-signed"] }
maud = { version = "0.27", features = ["axum"] }
sqlx = { version = "*", default-features = false, features = ["sqlite", "runtime-tokio", "macros", "migrate"] }
tokio = { version = "1", features = ["full"] }
tracing = "0.1"
tracing-subscriber = { version = "0.3", features = ["env-filter"] }
bcrypt = "*"
tower-http = { version = "*", features = ["fs"] }
object_store = { version = "*", features = ["aws"] }
futures = "0.3"
charming = "*"
webbrowser = "*"
