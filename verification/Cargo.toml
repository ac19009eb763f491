[package]
name = "bootstrap_check"
version = "0.1.0"
edition = "2021"
publish = false

[dependencies]
chrono = "=0.2.25"
smtp = "=0.2.0"
