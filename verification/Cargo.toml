[package]
name = "emend-lt"
version = "0.1.0"
edition = "2021"
publish = false

[dependencies]
fancy-regex = "0.14"
quick-xml = "0.38"
axum = "0.8"
tokio = { version = "1", features = ["rt-multi-thread", "net", "signal", "macros"] }
serde = { version = "1", features = ["derive"] }
