[package]
name = "terminal_renders"
version = "0.1.0"
edition = "2021"
publish = false

[dependencies]
anyhow = "*"
crossterm = "*"
num_cpus = "*"
threadpool = "*"
