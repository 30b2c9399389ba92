[package]
name = "wordle_stats"
version = "0.1.0"
edition = "2021"
publish = false

[dependencies]
regex = "1"
lazy_static = "1"
tokio = { version = "1", features = ["macros", "rt-multi-thread"] }
serenity = { version = "0.11", default-features = false, features = ["client", "gateway", "rustls_backend", "model"] }
