[package]
name = "legato"
version = "0.1.0"
edition = "2021"
publish = false

[dependencies]
crossbeam = "*"
midir = "*"
indexmap = "2"
