[package]
name = "docxtools"
version = "0.1.0"
edition = "2021"
publish = false

[dependencies]
quick-xml = "0.36"
regex = "1"
unicase = "2"
uuid = { version = "1", features = ["v4"] }
walkdir = "2"
zip = { version = "2", default-features = false, features = ["deflate"] }
clap = { version = "4", features = ["derive"] }
tempfile = "3"
