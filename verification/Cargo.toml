[package]
name = "graph"
version = "0.1.0"
edition = "2021"

[dependencies]
regex = "1"
serde = "1"
serde_json = "1"
