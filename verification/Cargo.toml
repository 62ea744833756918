[package]
name = "compress_highlight"
version = "0.1.0"
edition = "2021"
publish = false

[dependencies]
anyhow = "1"
clap = { version = "4", features = ["derive"] }
colorous = "1"
scopeguard = "1"
strip-ansi-escapes = "0.2"
termcolor = "1"
