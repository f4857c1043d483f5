[package]
name = "record_id"
version = "0.1.0"
edition = "2021"
publish = false

[dependencies]
serde = { version = "1", features = ["derive"] }
surrealdb = { version = "=1.4.2", default-features = false, features = ["kv-mem"] }
tokio = { version = "1", features = ["macros", "rt-multi-thread"] }
