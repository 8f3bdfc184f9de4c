[package]
name = "demo-rust-string-issues"
version = "1.1.0"
edition = "2021"
publish = false

[dependencies]
unicode-segmentation = "1"
unicode-normalization = "0.1"
