[package]
name = "barg"
version = "0.1.0"
edition = "2021"
publish = false

[dependencies]
fonterator = "=0.4.2"
footile = "=0.3.1"
rvg = { version = "=0.0.3", features = ["footile"] }
window = "=0.1.0"
