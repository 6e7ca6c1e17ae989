[package]
name = "librarian"
version = "0.1.0"
edition = "2021"
publish = false

[dependencies]
fuzzy-matcher = "0.3"
indexmap = { version = "2", features = ["serde"] }
serde = { version = "1", features = ["derive"] }
serde_json = "1"
serde_with = "3"
sha1 = "0.6"
url = { version = "2", features = ["serde"] }
walkdir = "2"
