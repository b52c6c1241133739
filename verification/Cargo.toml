[package]
name = "paper_engine"
version = "0.1.0"
edition = "2021"
publish = false

[dependencies]
axum = "*"
gobject-sys = "*"
lazy_static = "*"
poppler = "*"
rust-stemmers = "*"
serde = { version = "*", features = ["derive"] }
tokio = { version = "*", features = ["full"] }
tower = { version = "*", features = ["util"] }
tower-http = { version = "*", features = ["fs", "trace"] }
