[package]
name = "baduk_search"
version = "0.1.0"
edition = "2021"
publish = false

[dependencies]
lru = "*"
serde = { version = "*", features = ["derive"] }
serde_bytes = "*"
rmp-serde = "*"
serde_json = "*"
sgf-parse = "*"
walkdir = "*"
