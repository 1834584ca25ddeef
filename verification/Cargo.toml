[package]
name = "grid_navigator"
version = "0.1.0"
edition = "2021"
publish = false

[dependencies]
rand = "0.9"
minifb = "*"
csv = "1"
chrono = "0.4"
