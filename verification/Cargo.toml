[package]
name = "epubmd"
version = "0.1.0"
edition = "2021"
publish = false

[dependencies]
regex = "1"
roxmltree = "0.20"
zip = { version = "2", default-features = false, features = ["deflate"] }
base64 = "0.22"
mime_guess = "2"
serde = { version = "1", features = ["derive"] }
serde_json = "1"
clap = { version = "4", features = ["derive"] }
