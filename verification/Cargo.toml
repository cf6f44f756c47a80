[package]
name = "tagdeck"
version = "0.1.0"
edition = "2021"
publish = false

[dependencies]
url = "*"
urlencoding = "*"
serde = { version = "*", features = ["derive"] }
serde_json = "*"
lofty = "*"
plist = "*"
notify = "*"
dirs = "*"
chrono = "*"
