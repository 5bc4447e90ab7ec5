[package]
name = "pe_parser"
version = "0.1.0"
edition = "2021"
publish = false

[dependencies]
iced-x86 = "1"
pelite = "0.10"
anyhow = "1"
