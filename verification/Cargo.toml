[package]
name = "solar"
version = "0.1.0"
edition = "2021"
publish = false

[dependencies]
sled = "*"
futures = "*"
kuska-ssb = "*"
xdg = "*"
