[package]
name = "xml-c14n"
version = "0.1.0"
edition = "2021"
publish = false

[dependencies]
quick-xml = "0.38"
regex = "1"
