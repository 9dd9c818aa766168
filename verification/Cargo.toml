[package]
name = "dirsize"
version = "0.1.0"
edition = "2021"
publish = false

[dependencies]
clap = { version = "4", features = ["derive"] }
crossterm = "0.26"
log = "0.4"
opener = "0.6"
rayon = "1"
