[package]
name = "typst-gather"
version = "0.2.1"
edition = "2021"
publish = false

[dependencies]
clap = { version = "4", features = ["derive"] }
ecow = "0.2"
globset = "0.4"
serde = { version = "1", features = ["derive"] }
serde_json = "1"
toml = "0.8"
typst-kit = { version = "0.14", default-features = false, features = ["packages"] }
typst-syntax = "0.14"
walkdir = "2"
