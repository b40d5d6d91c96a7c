[package]
name = "stdf"
version = "0.1.0"
edition = "2021"
publish = false

[dependencies]
time = { version = "0.3", features = ["formatting"] }
clap = "4"
memmap = "0.7"
