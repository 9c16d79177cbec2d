[package]
name = "hui"
version = "0.1.0"
edition = "2021"
publish = false

[dependencies]
fuzzy-matcher = "*"
ratatui = "*"
crossterm = "*"
copypasta = "*"
