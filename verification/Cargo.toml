[package]
name = "rosc"
version = "0.1.0"
edition = "2021"
publish = false

[dependencies]
time = { version = "0.3", features = ["formatting"] }

[dev-dependencies]
hex = "0.4"
