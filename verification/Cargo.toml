[package]
name = "todoscan"
version = "0.1.0"
edition = "2021"
publish = false

[dependencies]
regex = "1"
anyhow = "1"
clap = { version = "4", features = ["derive"] }
colored = "2"
ignore = "0.4"
walkdir = "2"
serde = { version = "1", features = ["derive"] }
serde_json = "1"
