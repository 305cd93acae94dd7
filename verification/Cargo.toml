[package]
name = "neighbor_chat"
version = "0.1.0"
edition = "2021"
publish = false

[dependencies]
uuid = { version = "*", features = ["v4"] }
directories = "*"

[dev-dependencies]
regex = "*"
