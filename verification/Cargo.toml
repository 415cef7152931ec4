[package]
name = "resp_kv"
version = "0.1.0"
edition = "2021"

[dependencies]
hex = "0.4"
