[package]
name = "samsara"
version = "0.1.0"
edition = "2021"
publish = false

[dependencies]
im = "15"
roaring = "0.10"
rand = "0.8"
lazy_static = "1"
parking_lot = "0.12"
graphviz-rust = "0.6"
dot-structures = "0.1"
dot-generator = "0.2"
