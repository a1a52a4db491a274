[package]
name = "landau"
version = "0.1.0"
edition = "2021"
publish = false

[dependencies]
rand = "0.8"
serde = { version = "1", features = ["derive"] }
tokio = { version = "1", features = ["rt-multi-thread", "macros", "net"] }
axum = "0.7"
futures = "0.3"
num_cpus = "1"
tempfile = "3"
anyhow = "1"
plotters = "0.3"
