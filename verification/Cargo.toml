[package]
name = "boost"
version = "0.1.0"
edition = "2021"
publish = false

[dependencies]
b2sum-rs = "*"
globset = "*"
libc = "*"
serde = { version = "*", features = ["derive"] }
serde_json = "*"
toml = "*"
