[package]
name = "stl_indexer"
version = "0.1.0"
edition = "2021"
publish = false

[dependencies]
failure = "0.1"
fnv = "1.0"
gl = "0.14"
glutin = "0.19"
memmap = "0.7"
nalgebra-glm = "0.2"
nom = "4.2"
num_cpus = "1"
rayon = "1"
