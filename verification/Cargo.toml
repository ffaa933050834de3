[package]
name = "enrichment"
version = "0.1.0"
edition = "2021"
publish = false

[dependencies]
vrl = { version = "*", default-features = false, features = ["compiler"] }
