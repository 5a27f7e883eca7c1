[package]
name = "backupmydevstuff"
version = "0.1.0"
edition = "2021"
publish = false

[dependencies]
gitignore = "1"
rayon = "1"
zip = { version = "0.6", default-features = false, features = ["bzip2"] }
