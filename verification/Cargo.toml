[package]
name = "bfg"
version = "0.1.0"
edition = "2021"
publish = false

[dependencies]
docopt = "1"
dynasm = "*"
dynasmrt = "*"
libc = "0.2"
rustyline = "*"
