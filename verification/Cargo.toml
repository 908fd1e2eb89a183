[package]
name = "tre"
version = "0.1.0"
edition = "2021"
publish = false

[dependencies]
indexmap = "*"
slab = "*"
lscolors = "*"
termcolor = "*"
regex = "*"
