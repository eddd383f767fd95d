[package]
name = "roster"
version = "0.1.0"
edition = "2021"
publish = false

[dependencies]
revolt-models = "=0.16.2"
revolt-permissions = "=0.16.2"
revolt-result = { version = "=0.16.2", features = ["rocket", "okapi"] }
revolt_rocket_okapi = "=0.10.0"
rocket = { version = "=0.5.2", features = ["json"] }
