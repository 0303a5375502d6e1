[package]
name = "ftgrep"
version = "0.1.0"
edition = "2021"
publish = false

[dependencies]
anyhow = "=1.0.104"
chrono = "=0.4.45"
clap = { version = "=4.6.7", features = ["derive"] }
libc = "=0.2.191"
lindera = "=5.3.0"
lindera-analysis = "=5.3.0"
lindera-tantivy = "=5.0.1"
rayon = "=1.12.0"
serde = { version = "=1.0.229", features = ["derive"] }
serde_json = "=1.0.154"
tantivy = "=0.26.2"
unicode-normalization = "=0.1.26"
walkdir = "=2.5.0"
