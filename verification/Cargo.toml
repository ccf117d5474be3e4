[package]
name = "doumi"
version = "0.1.0"
edition = "2021"
publish = false

[dependencies]
clap = { version = "4", features = ["derive"] }
rustyline = "10"
rustyline-derive = "0.7"
