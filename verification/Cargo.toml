[package]
name = "grid_navigation"
version = "0.1.0"
edition = "2021"
publish = false

[dependencies]
priq = "=0.1.6"
