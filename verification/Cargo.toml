[package]
name = "botbot"
version = "0.1.0"
edition = "2021"
publish = false

[dependencies]
regex = "1"
rand = "0.8"
unidecode = "0.3"
chrono = "0.4"
procfs = "*"
sqlite = "*"
