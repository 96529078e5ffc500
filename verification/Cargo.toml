[package]
name = "quiver_algebra"
version = "0.1.0"
edition = "2021"
publish = false

[dependencies]
nonempty = "*"
petgraph = "*"
nalgebra = "*"
num = "*"
itertools = "*"
qhull = "*"
