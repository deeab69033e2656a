[package]
name = "timed_stats"
version = "0.1.0"
edition = "2021"
publish = false

[dependencies]
anyhow = "1"
async-trait = "0.1"
chrono = { version = "0.4", default-features = false, features = ["clock", "std"] }
diesel = { version = "2", default-features = false, features = ["mysql_backend", "chrono"] }
diesel-async = { version = "0.5", features = ["mysql", "deadpool"] }
envy = "0.4"
futures-util = "0.3"
ordered-float = "4"
serde = { version = "1", features = ["derive"] }
thiserror = "1"
tokio = { version = "1", features = ["macros", "rt-multi-thread"] }
tracing = "0.1"
tracing-subscriber = { version = "0.3", features = ["env-filter"] }
