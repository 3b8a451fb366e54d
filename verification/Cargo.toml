[package]
name = "nobility"
version = "0.2.0"
edition = "2021"
publish = false

[dependencies]
cesu8 = "1"
flate2 = "1"
uuid = "1"
