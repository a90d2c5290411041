[package]
name = "hintshell"
version = "0.3.4"
edition = "2021"
publish = false

[dependencies]
serde = { version = "1", features = ["derive"] }
serde_json = "1"
fuzzy-matcher = "0.3"
chrono = "0.4"
rusqlite = { version = "0.31", features = ["bundled"] }
toml = "0.8"
clap = { version = "4", features = ["derive"] }
crossterm = "0.27"
portable-pty = "0.8"
libc = "0.2"
tokio = { version = "1", features = ["full"] }
tracing = "0.1"
tracing-subscriber = "0.3"
ureq = "2"
dirs = "5"

[dev-dependencies]
tempfile = "3"
