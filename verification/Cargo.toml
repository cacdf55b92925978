[package]
name = "take5"
version = "0.1.0"
edition = "2021"
publish = false

[dependencies]
docopt = "1"
itertools = "0.8"
rand = "0.5"
serde = { version = "1", features = ["derive"] }
serde_derive = "1"
serde_json = "1"
