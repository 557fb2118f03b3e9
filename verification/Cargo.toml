[package]
name = "pyret_moss"
version = "0.1.0"
edition = "2021"
publish = false

[dependencies]
fnv = "1.0"
ansi_term = "0.12"
gag = "1.0"
prettytable-rs = "0.10"

[dev-dependencies]
regex = "1"
