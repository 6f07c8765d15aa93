[package]
name = "monkey-c-lsp"
version = "0.1.0"
edition = "2021"
publish = false

[dependencies]
gen-lsp-types = "*"
