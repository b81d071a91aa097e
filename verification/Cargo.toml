[package]
name = "redbook"
version = "0.1.0"
edition = "2021"
publish = false

[dependencies]
anyhow = "1"
base64 = "0.22"
clap = { version = "4", features = ["derive"] }
dialoguer = "*"
dirs = "6"
metaflac = "0.2"
sanitize-filename = "*"
serde = { version = "1", features = ["derive"] }
serde_json = "1"
tempfile = "3"
ureq = "3"
walkdir = "2"
