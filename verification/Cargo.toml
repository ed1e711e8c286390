[package]
name = "git_reconstruct"
version = "0.1.0"
edition = "2021"
publish = false

[dependencies]
lz4 = "*"
fixedbitset = "*"
git2 = "*"
walkdir = "*"
structopt = "*"
num_cpus = "*"
crossbeam = "*"
crossbeam-channel = "*"
