[package]
name = "gopher_blog"
version = "0.1.0"
edition = "2021"
publish = false

[dependencies]
pulldown-cmark = { version = "0.13", default-features = false }
yaml-rust2 = "0.11"
