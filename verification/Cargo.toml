[package]
name = "envfile"
version = "0.2.1"
edition = "2021"
publish = false

[dependencies]
snailquote = "0.3"
