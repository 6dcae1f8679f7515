[package]
name = "desk_packing"
version = "0.1.0"
edition = "2021"
publish = false

[dependencies]
transpose = "0.2"
itertools = "0.12"
eyre = "0.6"
color-eyre = "0.6"
tracing = "0.1"
