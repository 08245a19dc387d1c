[package]
name = "slide"
version = "0.1.0"
edition = "2021"
publish = false

[dependencies]
rug = "*"
lalrpop-util = "0.17"
rustyline = "*"
