[package]
name = "gitrw"
version = "0.1.0"
edition = "2021"
publish = false

[dependencies]
rustc-hash = "*"
bstr = "*"
clap = { version = "*", features = ["derive"] }
clap-markdown = "*"
mimalloc = "*"
