[package]
name = "procfinder"
version = "0.1.0"
edition = "2021"
publish = false

[dependencies]
libproc = "*"
prettytable-rs = "*"
rustyline = "*"
strsim = "*"
