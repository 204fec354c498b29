[package]
name = "vanishing_tris"
version = "0.1.0"
edition = "2021"
publish = false

[dependencies]
rand = "*"
minifb = "*"
raqote = { version = "*", default-features = false }
