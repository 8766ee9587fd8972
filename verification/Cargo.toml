[package]
name = "patchsplit"
version = "0.1.0"
edition = "2021"
publish = false

[dependencies]
getopts = "0.2"
image = { version = "0.25", default-features = false, features = ["jpeg", "png"] }
rand = "0.8"
rayon = "1"
