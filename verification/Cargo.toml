[package]
name = "ankichess"
version = "0.1.0"
edition = "2021"
publish = false

[dependencies]
csv = "*"
quick-xml = "*"
regex = "*"
uuid = { version = "*", features = ["v4"] }
zstd = "*"
