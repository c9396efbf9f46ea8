[package]
name = "seamless"
version = "0.1.0"
edition = "2021"
publish = false

[dependencies]
clap = { version = "*", features = ["derive"] }
console = "*"
gifski = "*"
image = "*"
indicatif = "*"
rayon = "*"
