[package]
name = "rs_erasure"
version = "0.1.0"
edition = "2021"
publish = false

[dependencies]
dashmap = "6"
rayon = "1"
anyhow = "1"
clap = { version = "4", features = ["derive"] }
tokio = { version = "1", features = ["full"] }
futures-util = "0.3"
indicatif = "0.17"
tracing = "0.1"
tracing-subscriber = { version = "0.3", features = ["env-filter"] }
