[package]
name = "totup"
version = "0.1.0"
edition = "2021"
publish = false

[dependencies]
internment = { version = "*", features = ["arc"] }
prettytable-rs = "*"
clap = "2"
structopt = "0.3"
grep = "*"
ignore = "*"
term_size = "*"
