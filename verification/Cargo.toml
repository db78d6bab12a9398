[package]
name = "seqbuffer"
version = "0.1.0"
edition = "2021"

[dependencies]
anyhow = "1"
rayon = "1"
redis = "*"
