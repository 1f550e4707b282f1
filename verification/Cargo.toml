[package]
name = "cliboard"
version = "0.1.0"
edition = "2021"
publish = false

[dependencies]
katex = "0.4"
pulldown-cmark = { version = "0.12", default-features = false }
clap = { version = "4", features = ["derive"] }
serde = { version = "1", features = ["derive"] }
serde_json = "1"
chrono = "0.4"
fs4 = { version = "0.13", features = ["sync"] }
notify = "7"
open = "5"
rust-embed = "8"
tempfile = "3"
tiny_http = "0.12"
