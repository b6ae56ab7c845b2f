[package]
name = "typst_extract"
version = "0.1.0"
edition = "2021"
publish = false

[dependencies]
typst = "0.11"
