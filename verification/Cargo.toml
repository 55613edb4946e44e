[package]
name = "backy_extract"
version = "0.1.0"
edition = "2021"
publish = false

[dependencies]
lzo1x = "=0.2.2"
rand = "=0.10.3"
num_cpus = "=1.17.0"
lru = "=0.18.5"
serde = { version = "*", features = ["derive"] }
serde_json = "*"
serde_yaml = "*"
crossbeam = "*"
fs2 = "*"
libc = "*"
atty = "*"
