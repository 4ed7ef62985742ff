[package]
name = "freeze"
version = "0.1.1"
edition = "2021"
publish = false

[dependencies]
anyhow = "1"
axum = "0.7"
chrono = "0.4"
clap = { version = "4", features = ["derive"] }
colored = "2"
console = "0.15"
dirs = "5"
indicatif = "0.17"
open = "5"
rusqlite = { version = "0.31", features = ["bundled"] }
serde = { version = "1", features = ["derive"] }
serde_json = "1"
sha2 = "0.10"
tabled = "0.15"
tokio = { version = "1", features = ["full"] }
tower-http = { version = "0.5", features = ["cors"] }
walkdir = "2"
zstd = "0.13"
