[package]
name = "tosh"
version = "0.1.0"
edition = "2021"
publish = false

[dependencies]
otpauth = "*"
clap = "2"
