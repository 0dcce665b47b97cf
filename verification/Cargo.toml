[package]
name = "mdrefcheck"
version = "0.1.0"
edition = "2021"
publish = false

[dependencies]
pulldown-cmark = "*"
path-clean = "*"
pathdiff = "*"
clap = { version = "*", features = ["derive"] }
colored = "*"
dunce = "*"
ignore = "*"
log = "*"
rayon = "*"
