[package]
name = "fatimage"
version = "0.1.0"
edition = "2021"
publish = false

[dependencies]
eyre = "0.6"
fatfs = "0.3"
structopt = "0.3"

[dev-dependencies]
regex = "1"
