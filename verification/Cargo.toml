[package]
name = "regex2fsm"
version = "0.1.0"
edition = "2021"
publish = false

[dependencies]
itertools = "*"
dot = "*"
serde = { version = "1", features = ["derive"] }
serde_json = "1"
structopt = "0.3"
