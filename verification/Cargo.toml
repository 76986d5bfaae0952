[package]
name = "merak_analyzer"
version = "0.1.0"
edition = "2021"
publish = false

[dependencies]
z3 = "=0.8.0"
primitive-types = "=0.12.2"
indexmap = "=2.14.2"
