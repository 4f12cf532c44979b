[package]
name = "crucible"
version = "0.1.0"
edition = "2021"
publish = false

[dependencies]
uuid = { version = "=1.29.0", features = ["v4"] }
anyhow = "=1.0.104"
structopt = "=0.3.26"
tokio = { version = "=1.54.1", features = ["rt-multi-thread"] }
nbdkit = "=0.3.0"
lazy_static = "=1.5.1"
async-trait = "=0.1.92"
serde = { version = "1", features = ["derive"] }
