[package]
name = "ccusage-adapter-cursor"
version = "0.1.0"
edition = "2021"
publish = false

[dependencies]
jiff = "0.2"
memchr = "2"
serde_json = "1"
sqlite = "*"
