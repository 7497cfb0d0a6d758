[package]
name = "uptime_ferris"
version = "0.1.0"
edition = "2021"
publish = false

[dependencies]
validator = "*"
axum = "*"
chrono = { version = "*", default-features = false, features = ["clock"] }
clap = { version = "*", features = ["derive", "env"] }
futures-util = "*"
reqwest = { version = "*", default-features = false }
serde = { version = "*", features = ["derive"] }
sqlx = { version = "*", default-features = false, features = ["runtime-tokio", "sqlite", "postgres", "chrono"] }
tokio = { version = "*", features = ["macros", "rt-multi-thread", "signal", "time", "net"] }
