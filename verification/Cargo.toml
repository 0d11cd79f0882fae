[package]
name = "translator"
version = "0.1.0"
edition = "2021"
publish = false

[dependencies]
rangemap = { version = "*", features = ["serde1"] }
serde = { version = "*", features = ["derive"] }
pdf_oxide = "*"
html = "*"
itertools = "*"
log = "*"
ratatui = "*"
crossterm = "*"
color-eyre = "*"
ansi-to-tui = "*"
ratatui-explorer = "*"
ratatui-textarea = "*"
simple_file_logger = "*"
