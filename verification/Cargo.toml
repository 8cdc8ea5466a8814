[package]
name = "othello"
version = "0.1.0"
edition = "2021"
publish = false

[dependencies]
rand = "*"
config = { version = "*", default-features = false, features = ["toml"] }
lazy_static = "*"
