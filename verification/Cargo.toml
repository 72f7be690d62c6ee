[package]
name = "point_tiler"
version = "0.1.0"
edition = "2021"
publish = false

[dependencies]
bytemuck = { version = "*", features = ["derive"] }
csv = "*"
glob = "*"
kv-extsort = "*"
las = { version = "*", features = ["laz"] }
num_cpus = "*"
rayon = "*"
serde = { version = "*", features = ["derive"] }
serde_json = "*"
tempfile = "*"
tinymvt = "*"
