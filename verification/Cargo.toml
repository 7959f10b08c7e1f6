[package]
name = "lit_engine"
version = "0.1.0"
edition = "2021"
publish = false

[dependencies]
btreemultimap = "=0.1.1"

[dev-dependencies]
rand = "=0.10.3"
