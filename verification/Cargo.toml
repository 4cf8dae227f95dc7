[package]
name = "inverted_index"
version = "0.1.0"
edition = "2021"

[dependencies]
rust-stemmers = "*"
regex = "*"
serde = { version = "*", features = ["derive"] }
serde-xml-rs = "*"
