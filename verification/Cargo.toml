[package]
name = "paimon_vindex_core"
version = "0.1.0"
edition = "2021"
publish = false

[dependencies]
nalgebra = "*"
rand = "0.8"
rayon = "1"
roaring = "0.10"
