[package]
name = "rasterh3"
version = "0.1.0"
edition = "2021"
publish = false

[dependencies]
ahash = "0.8"
geo = "0.29"
geo-types = "0.7"
h3o = { version = "0.7", features = ["geo"] }
ndarray = "0.16"
rayon = "1"
thiserror = "1"
tracing = "0.1"
