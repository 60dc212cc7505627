[package]
name = "vocab_lib"
version = "0.1.0"
edition = "2021"
publish = false

[dependencies]
html2text = "*"
clap = { version = "4", features = ["derive"] }
crossterm = "0.25"
tui = "0.19"
genpdf = "0.2"
rocket = "0.5"
