[package]
name = "flat_query"
version = "0.1.0"
edition = "2021"
publish = false

[dependencies]
serde = "1"
serde_urlencoded = "0.7"
