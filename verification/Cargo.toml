[package]
name = "corp"
version = "0.1.0"
edition = "2021"
publish = false

[dependencies]
chrono = "0.4"
fs-err = "2.11"
memmap = "0.7"
