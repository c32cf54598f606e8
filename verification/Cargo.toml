[package]
name = "pq"
version = "0.14.1"
edition = "2021"
publish = false

[dependencies]
anyhow = "1"
clap = { version = "4", features = ["derive"] }
comfy-table = "7"
crossterm = "0.28"
ctrlc = "3"
duckdb = { version = "=1.10501.0", default-features = false }
libc = "0.2"
ratatui = "0.29"
serde_json = { version = "=1.0.154", features = ["preserve_order"] }
tempfile = "3"
tui-textarea = { version = "0.7", features = ["search"] }
