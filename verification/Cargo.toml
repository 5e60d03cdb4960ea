[package]
name = "etree"
version = "0.1.0"
edition = "2021"
publish = false

[dependencies]
quick-xml = "0.22"
eval = "0.4"
regex = "1"
nom = "7"
