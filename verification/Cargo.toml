[package]
name = "formal_systems_toolbox"
version = "0.1.0"
edition = "2021"
publish = false

[dependencies]
itertools = "*"
nom = "*"
