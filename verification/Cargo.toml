[package]
name = "signal_grid"
version = "0.1.0"
edition = "2021"
publish = false

[dependencies]
anyhow = "1"
arrayvec = "0.7"
colorgrad = { version = "*", features = ["preset"] }
crossterm = "*"
rand = "0.8"
