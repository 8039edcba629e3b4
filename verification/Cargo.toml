[package]
name = "xdg-user"
version = "0.2.1"
edition = "2021"
publish = false

[dependencies]
home = "0.5"
