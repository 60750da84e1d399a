[package]
name = "sourisdb"
version = "0.1.0"
edition = "2021"
publish = false

[dependencies]
hashbrown = "=0.17.1"
lz4_flex = "=0.14.0"
chrono = "=0.4.45"
chrono-tz = "=0.10.4"
serde_json = "=1.0.154"
serde = { version = "=1.0.229", features = ["derive"] }
tokio = { version = "=1.54.1", features = ["full"] }
axum = "=0.8.9"
moka = { version = "=0.12.16", features = ["future"] }
dirs = "=7.0.0"
libc = "=0.2.191"
ureq = { version = "=2.12.1", default-features = false, features = ["json"] }
reqwest = { version = "=0.12.28", default-features = false, features = ["json"] }
clap = { version = "4", features = ["derive"] }
dialoguer = { version = "0.11", features = ["fuzzy-select"] }
