[package]
name = "libreviewer"
version = "0.1.0"
edition = "2021"
publish = false

[dependencies]
clap = "2"
failure = "0.1"
prettytable-rs = "0.8"
