[package]
name = "storage_core"
version = "0.1.0"
edition = "2021"
publish = false

[dependencies]
sha1 = "=0.10.7"
clap = { version = "4", features = ["derive"] }
home = "0.5"
serde = { version = "1", features = ["derive"] }
sea-orm = { version = "1", default-features = false, features = ["macros", "sqlx-sqlite", "runtime-tokio-rustls"] }
