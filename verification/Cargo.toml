[package]
name = "tuzi-proxy"
version = "0.1.0"
edition = "2021"
publish = false

[dependencies]
anyhow = "=1.0.104"
async-trait = "=0.1.92"
chrono = "=0.4.45"
clap = { version = "=3.2.25", features = ["derive"] }
futures = "=0.3.34"
indexmap = "=1.9.3"
libc = "=0.2.191"
nom = { version = "=5.1.3", default-features = false, features = ["std"] }
serde = { version = "=1.0.229", features = ["derive"] }
serde_json = "=1.0.154"
thiserror = "=1.0.69"
tokio = { version = "=0.2.25", features = ["full"] }
tracing = "=0.1.44"
tracing-subscriber = "=0.2.25"
