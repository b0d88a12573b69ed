[package]
name = "march_madness"
version = "0.1.0"
edition = "2021"
publish = false

[dependencies]
clap = { version = "=4.6.7", features = ["derive"] }
glob = "=0.3.4"
indicatif = "=0.18.6"
rand = "=0.9.5"
rand_distr = "=0.5.1"
rayon = "=1.12.0"
