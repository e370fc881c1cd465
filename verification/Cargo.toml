[package]
name = "dreamcoder"
version = "2.0.0"
edition = "2021"
publish = false

[dependencies]
anyhow = "1"
async-trait = "0.1"
chrono = "0.4"
clap = { version = "4", features = ["derive", "env"] }
colored = "2"
console = "0.15"
crossterm = "0.27"
dialoguer = "0.11"
dirs = "5"
handlebars = "5"
hex = "0.4"
hostname = "0.3"
indicatif = "0.17"
ratatui = "0.23"
serde = { version = "1", features = ["derive"] }
serde_json = "1"
sha2 = "0.10"
shellexpand = "3"
sysinfo = "0.30"
thiserror = "1"
tokio = { version = "1", features = ["full"] }
tracing = "0.1"
tracing-subscriber = { version = "0.3", features = ["env-filter"] }
uuid = { version = "1", features = ["v4"] }
walkdir = "2"
which = "4"

[dev-dependencies]
serde_json = "1"
