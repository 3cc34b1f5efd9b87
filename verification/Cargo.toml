[package]
name = "jsondata"
version = "0.8.1"
edition = "2021"
publish = false

[dependencies]
unicode_reader = "*"
