[package]
name = "protostar_works"
version = "0.1.0"
edition = "2021"
publish = false

[dependencies]
ff = "=0.13.1"
group = "=0.13.0"
halo2curves = "=0.10.0"
num-bigint = "=0.4.8"
num-traits = "=0.2.19"
rand_core = { version = "=0.6.4", features = ["getrandom"] }
rayon-core = "=1.13.0"
itertools = "=0.15.0"
elsa = "=1.11.2"
clap = { version = "4", features = ["derive"] }
