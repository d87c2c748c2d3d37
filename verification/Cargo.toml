[package]
name = "svg_strip"
version = "0.1.0"
edition = "2021"
publish = false

[dependencies]
xmltree = { version = "=0.12.0", features = ["attribute-order"] }
regex = "=1.13.1"
lazy_static = "=1.5.1"
colored = "=3.1.1"
