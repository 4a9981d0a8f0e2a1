[package]
name = "ebook-reader"
version = "0.1.0"
edition = "2021"
publish = false

[dependencies]
textwrap = "0.16"
html2text = "0.12"
anyhow = "1"
crossterm = "0.28"
ratatui = "0.29"
epub = "2"
dirs = "5"
serde = { version = "1", features = ["derive"] }
serde_json = "1"
