[package]
name = "graph_embedding"
version = "0.1.0"
edition = "2021"
publish = false

[dependencies]
cpu-time = "=1.0.0"
log = "=0.4.35"
ndarray = "=0.15.6"
ndarray-linalg = { version = "=0.16.0", default-features = false }
num-traits = "=0.2.19"
rayon = "=1.12.0"
sprs = { version = "=0.11.6", default-features = false }

[dev-dependencies]
hnsw_rs = "=0.1.19"
rand = "=0.8.8"
