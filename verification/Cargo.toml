[package]
name = "hnsw_index"
version = "0.1.0"
edition = "2021"
publish = false

[dependencies]
anyhow = "*"
instant-distance = "*"
log = "*"
once_cell = "*"
