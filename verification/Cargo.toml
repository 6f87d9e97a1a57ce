[package]
name = "bop"
version = "0.1.0"
edition = "2021"
publish = false

[dependencies]
regex = "1"
serde = { version = "1", features = ["derive"] }
serde_yaml = "0.9"
serde_json = "1"
clap = { version = "4", features = ["derive"] }
gtk4 = "0.9"
tempfile = "3"
ureq = { version = "2", features = ["json"] }
zip = { version = "2", default-features = false, features = ["deflate"] }
base64 = "0.22"
lettre = "0.11"
resvg = "0.45"
image = { version = "0.25", default-features = false, features = ["png"] }
