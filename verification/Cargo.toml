[package]
name = "umpire"
version = "0.1.0"
edition = "2021"
publish = false

[dependencies]
regex = "=1.13.1"
rand = "=0.8.8"
clap = "=4.6.7"
uuid = { version = "1", features = ["v4"] }
