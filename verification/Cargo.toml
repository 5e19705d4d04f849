[package]
name = "blockary"
version = "0.1.0"
edition = "2021"
publish = false

[dependencies]
chrono = "0.4"
clap = { version = "4", features = ["derive"] }
comfy-table = "*"
icalendar = "*"
pulldown-cmark = { version = "*", default-features = false }
serde = { version = "1", features = ["derive"] }
toml = "*"
walkdir = "2"

[dev-dependencies]
regex = "1"
