[package]
name = "multimerge_pg"
version = "0.1.0"
edition = "2021"
publish = false

[dependencies]
rayon = "=1.12.0"
bumpalo = "=3.20.3"
