[package]
name = "sitegen"
version = "0.1.0"
edition = "2021"
publish = false

[dependencies]
pulldown-cmark = "0.9"
serde_json = "1"
regex = "1"
chrono = "0.4"
clap = "4"
