[package]
name = "itpack"
version = "0.1.0"
edition = "2021"
publish = false

[dependencies]
miniz_oxide = "*"
regex = "*"
clap = "*"
log = "*"
simplelog = "*"
anyhow = "*"
