[package]
name = "kdot"
version = "0.1.0"
edition = "2021"
publish = false

[dependencies]
anyhow = "1"
log = "0.4"
pathdiff = "0.2"
serde = { version = "1", features = ["derive"] }
serde_json = "1"
simplelog = "0.9"
structopt = "0.3"
walkdir = "2"
