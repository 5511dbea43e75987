[package]
name = "value_resolver"
version = "0.1.0"
edition = "2021"
publish = false

[dependencies]
anyhow = "1"
minijinja = "1"
petgraph = "0.6"
regex = "1"
serde_yaml = "0.9"
walkdir = "2"
