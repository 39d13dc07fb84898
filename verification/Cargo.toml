[package]
name = "decondenser"
version = "0.1.0"
edition = "2021"
publish = false

[dependencies]
unicode-width = "=0.2.2"
anyhow = "=1.0.104"
clap = "=4.6.7"
codespan-reporting = "=0.13.1"
marked-yaml = "=0.8.0"
hashlink = "=0.10.0"
