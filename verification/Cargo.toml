[package]
name = "anthroforge_core"
version = "0.1.0"
edition = "2021"
publish = false

[dependencies]
rayon = "1"
serde_json = "1"
tobj = "4"
