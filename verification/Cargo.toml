[package]
name = "iso8211"
version = "0.1.0"
edition = "2021"
publish = false
