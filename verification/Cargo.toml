[package]
name = "fastn_resolver"
version = "0.1.0"
edition = "2021"
publish = false

[dependencies]
regex = "1"
