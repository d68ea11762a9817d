[package]
name = "kanjisearch"
version = "0.1.0"
edition = "2021"
publish = false

[dependencies]
regex = "1"
url = "1.7"
rouille = "3"
