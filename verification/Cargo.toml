[package]
name = "relax_ng"
version = "0.1.1"
edition = "2021"
publish = false

[dependencies]
regex = "=1.13.1"
roxmltree = "=0.20.0"
unicode-ident = "=1.0.27"
