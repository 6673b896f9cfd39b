[package]
name = "stribot"
version = "0.1.0"
edition = "2021"
publish = false

[dependencies]
clap = "*"
rand = "*"
reqwest = { version = "*", default-features = false, features = ["blocking"] }
