[package]
name = "veldb"
version = "0.1.0"
edition = "2021"

[dependencies]
anyhow = "=1.0.104"
axum = "=0.8.9"
clap = { version = "=4.6.7", features = ["derive"] }
http-body-util = "=0.1.5"
hyper = { version = "=1.12.0", features = ["client", "http1"] }
hyper-util = { version = "=0.1.21", features = ["tokio"] }
rayon = "=1.12.0"
rustc-hash = "=2.1.3"
rustyline = "=19.0.0"
serde = { version = "=1.0.229", features = ["derive"] }
serde_json = "=1.0.154"
sqlparser = "=0.62.0"
tokio = { version = "=1.54.1", features = ["full"] }

[dev-dependencies]
rand = "=0.9.5"
