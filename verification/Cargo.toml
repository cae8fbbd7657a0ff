[package]
name = "ruclifs"
version = "0.1.0"
edition = "2021"
publish = false

[dependencies]
anyhow = "1"
clap = { version = "4", features = ["derive"] }
glob = "0.3"
phf = { version = "0.11", features = ["macros"] }
regex = "1"

[dev-dependencies]
tempfile = "3"
