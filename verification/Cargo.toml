[package]
name = "rmm"
version = "0.1.0"
edition = "2021"
publish = false

[dependencies]
petgraph = "*"
rtree_rs = "*"
uuid = { version = "*", features = ["v4"] }
clap = { version = "*", features = ["derive"] }
geojson = "*"
wkt = "*"
anyhow = "*"
env_logger = "*"
log = "*"
