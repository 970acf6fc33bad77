[package]
name = "docxkit"
version = "0.1.0"
edition = "2021"
publish = false

[dependencies]
regex = "*"
quick-xml = "*"
zip = { version = "*", default-features = false, features = ["deflate"] }
