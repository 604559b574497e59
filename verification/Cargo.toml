[package]
name = "taskgraph"
version = "0.1.0"
edition = "2021"
publish = false

[dependencies]
anyhow = "1"
async-std = "1"
chrono = { version = "0.4", features = ["serde"] }
crossterm = "0.27"
ratatui = "0.26"
serde = { version = "1", features = ["derive"] }
serde_json = "1"
sqlx = { version = "0.7", features = ["sqlite", "runtime-async-std"] }
structopt = "0.3"
tempfile = "3"
uuid = { version = "1", features = ["v4", "serde"] }
