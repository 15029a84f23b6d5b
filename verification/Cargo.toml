[package]
name = "excel2json"
version = "0.1.0"
edition = "2021"
publish = false

[dependencies]
anyhow = "*"
calamine = "*"
clap = { version = "*", features = ["derive"] }
serde_json = { version = "*", features = ["preserve_order"] }
