[package]
name = "striped_maps"
version = "0.1.0"
edition = "2021"
publish = false

[dependencies]
bustle = "=0.5.1"
csv = "=1.4.0"
num_cpus = "=1.17.0"
once_cell = "=1.21.4"
serde = { version = "=1.0.229", features = ["derive"] }
serde_json = "=1.0.154"
structopt = "=0.3.26"
dashmap = "=6.2.1"
leapfrog = { version = "=0.3.3", features = ["stable_alloc"] }
