[package]
name = "overlord"
version = "0.1.0"
edition = "2021"
publish = false

[dependencies]
glob = "0.3"
getopts = "0.2"
serde = { version = "1", features = ["derive"] }
toml = "0.8"
