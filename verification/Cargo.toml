[package]
name = "vidplay"
version = "0.1.0"
edition = "2021"
publish = false

[dependencies]
srtlib = "*"
ass_parser = "*"
url = "2"
percent-encoding = "2"
serde = { version = "1", features = ["derive"] }
toml = "*"
rusqlite = { version = "*", features = ["bundled"] }
