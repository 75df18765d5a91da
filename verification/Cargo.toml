[package]
name = "cragdiff"
version = "0.1.0"
edition = "2021"
publish = false

[dependencies]
csv = "*"
deunicode = "*"
colored = "*"
clap = { version = "*", features = ["derive"] }
