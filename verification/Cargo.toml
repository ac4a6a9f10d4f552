[package]
name = "kvs"
version = "0.1.0"
edition = "2021"
publish = false

[dependencies]
clap = "=2.34.0"
crossbeam = "=0.8.5"
crossbeam-skiplist = "=0.1.3"
env_logger = "=0.7.1"
log = "=0.4.34"
nix = "=0.19.1"
num_cpus = "=1.17.0"
positioned-io = "=0.2.2"
rayon = "=1.12.0"
sled = "=0.34.7"
socket2 = { version = "=0.3.19", features = ["reuseport"] }
structopt = "=0.3.26"
