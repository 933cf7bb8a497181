[package]
name = "tinytree"
version = "0.1.0"
edition = "2021"
publish = false

[dependencies]
indexmap = "2"
slotmap = "1"
