[package]
name = "zash"
version = "0.1.0"
edition = "2021"
publish = false

[dependencies]
glob = "*"
dirs = "*"
colored = "*"
libc = "*"
rustyline = "*"
rustyline-derive = "*"
signal-hook = "*"
structopt = "*"
whoami = "*"
