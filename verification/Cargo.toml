[package]
name = "lemma"
version = "0.1.0"
edition = "2021"
publish = false

[dependencies]
kindling-mobi = "0.19"
