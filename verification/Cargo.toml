[package]
name = "maze_solver"
version = "0.1.0"
edition = "2021"
publish = false

[dependencies]
priority-queue = "*"
image = { version = "*", default-features = false, features = ["png", "jpeg", "bmp"] }
num = "*"
structopt = "*"
