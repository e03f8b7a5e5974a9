[package]
name = "rust_insight"
version = "0.1.0"
edition = "2021"
publish = false

[dependencies]
fuzzy-matcher = "0.3"
rand = "0.9"
chrono = { version = "0.4", features = ["serde"] }
clap = { version = "4", features = ["derive"] }
csv = "1"
serde = { version = "1", features = ["derive"] }
serde_json = "1"
thiserror = "2"
actix-web = { version = "4", default-features = false, features = ["macros"] }
askama = "0.14"
sqlx = { version = "0.8", default-features = false, features = ["sqlite", "runtime-tokio"] }
