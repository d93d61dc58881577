[package]
name = "battletools"
version = "0.1.0"
edition = "2021"
publish = false

[dependencies]
pikkr-annika = "*"
structopt = "0.3"
