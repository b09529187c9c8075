[package]
name = "muesli"
version = "0.1.0"
edition = "2021"
publish = false

[dev-dependencies]
winnow = "0.7"
