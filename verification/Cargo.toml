[package]
name = "html_splitter"
version = "0.1.0"
edition = "2021"
publish = false

[dev-dependencies]
ammonia = "*"
