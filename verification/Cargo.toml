[package]
name = "wasp"
version = "0.1.0"
edition = "2021"
publish = false

[dependencies]
wax = "*"
k8s-openapi = { version = "*", features = ["latest"] }
log = "*"
env_logger = "*"
