[package]
name = "modular_aliases"
version = "0.1.0"
edition = "2021"
publish = false

[dependencies]
cliclack = "*"
console = "*"
