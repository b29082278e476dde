[package]
name = "nettu_scheduler"
version = "0.1.0"
edition = "2021"
publish = false

[dependencies]
chrono = { version = "=0.4.45", default-features = false, features = ["clock", "std"] }
chrono-tz = "=0.10.4"
serde = { version = "=1.0.229", features = ["derive"] }
serde_json = "=1.0.154"
actix-web = { version = "=4.18.1", default-features = false, features = ["macros"] }
async-trait = "=0.1.92"
anyhow = "=1.0.104"
tracing = "=0.1.44"
reqwest = { version = "=0.12.28", default-features = false, features = ["json"] }
sqlx = { version = "=0.8.6", default-features = false, features = ["postgres", "runtime-tokio", "derive", "uuid", "json"] }
mongodb = "=3.9.1"
