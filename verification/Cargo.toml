[package]
name = "vecdb"
version = "0.1.0"
edition = "2021"
publish = false

[dependencies]
quick-xml = "0.31"
uuid = { version = "1", features = ["v4"] }
serde = { version = "1", features = ["derive"] }
bincode = "1"
thiserror = "1"
rand = "0.8"
calamine = "0.22"
zip = { version = "0.6", default-features = false, features = ["deflate"] }
pdf-extract = "0.7"
axum = "0.7"
tokio = { version = "1", features = ["full"] }
parking_lot = "0.12"
