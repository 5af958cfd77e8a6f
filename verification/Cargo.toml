[package]
name = "src2md"
version = "0.1.0"
edition = "2021"
publish = false

[dependencies]
anyhow = "*"
chrono = "*"
clap = "*"
content_inspector = "*"
git2 = { version = "*", default-features = false }
ignore = "*"
log = "*"
memmap2 = "*"
tempfile = "*"
tokio = { version = "*", features = ["rt", "rt-multi-thread", "macros", "fs", "io-util"] }
