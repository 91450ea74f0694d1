[package]
name = "region_means"
version = "0.1.0"
edition = "2021"
publish = false

[dependencies]
bio = { version = "*", default-features = false }
bigtools = { version = "*", default-features = false, features = ["read"] }
polars = { version = "*", default-features = false, features = ["csv"] }
rayon = "*"
