[package]
name = "module_lwe"
version = "0.1.0"
edition = "2021"
publish = false

[dependencies]
base64 = "=0.22.1"
bincode = "=1.3.3"
polynomial-ring = "=0.5.1"
rand = "=0.8.8"
rand_distr = "=0.4.3"

[dev-dependencies]
ntt = "=0.1.9"
ring-lwe = "=0.1.8"
