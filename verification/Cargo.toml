[package]
name = "smartasbrain"
version = "0.1.0"
edition = "2021"
publish = false

[dependencies]
rand = "0.8"
ratatui = "0.29"
crossterm = "0.28"
