[package]
name = "brakoll"
version = "0.1.0"
edition = "2021"
publish = false

[dependencies]
cli-clipboard = "*"
crossterm = "*"
dirs = "*"
walkdir = "*"
