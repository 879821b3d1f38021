[package]
name = "modlin"
version = "0.1.0"
edition = "2021"
publish = false

[dependencies]
primal = "*"
rayon = "*"
clap = { version = "4", features = ["derive"] }
env_logger = "*"
jiff = "*"
pluralizer = "*"
dsi-progress-logger = "*"
