[package]
name = "mdx_format"
version = "0.1.0"
edition = "2021"
publish = false

[dependencies]
markdown = "1.0.0-alpha.16"
