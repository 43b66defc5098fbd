[package]
name = "tower_grid"
version = "0.1.0"
edition = "2021"
publish = false

[dependencies]
rand = "*"
rand_xoshiro = "*"
good_lp = { version = "*", default-features = false, features = ["microlp"] }
clap = { version = "*", features = ["derive"] }
num_cpus = "*"
rayon = "*"
