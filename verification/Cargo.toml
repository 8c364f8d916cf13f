[package]
name = "locale_schema"
version = "0.1.0"
edition = "2021"
publish = false

[dependencies]
syn = "2"
serde_json = "1"
