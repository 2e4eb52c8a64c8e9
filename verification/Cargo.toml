[package]
name = "unicode_collation"
version = "0.1.0"
edition = "2021"
publish = false

[dependencies]
unicode-normalization = "*"
