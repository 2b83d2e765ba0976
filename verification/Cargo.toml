[package]
name = "cursor-chat-cleanup"
version = "0.1.0"
edition = "2021"
publish = false

[dependencies]
anyhow = "1"
base64 = "0.22"
buffa = "*"
bytesize = "2"
clap = { version = "4", features = ["derive"] }
crossterm = "*"
dirs = "6"
faster-hex = "*"
jiff = "0.2"
memchr = "2"
ratatui = "*"
rayon = "1"
rusqlite = { version = "*", features = ["bundled", "hooks"] }
rustc-hash = "2"
serde = { version = "1", features = ["derive"] }
serde_json = "1"
thiserror = "2"
