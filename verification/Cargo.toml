[package]
name = "tree_of_stars"
version = "0.1.0"
edition = "2021"
publish = false

[dependencies]
hex2d = "*"
petgraph = "*"
hibitset = "*"
rand = "*"
specs = "*"
