[package]
name = "rust_fast_cache"
version = "0.1.0"
edition = "2021"
publish = false

[dependencies]
chrono = "*"
colored = "*"
directories = "*"
libc = "*"
num_cpus = "*"
number_prefix = "*"
parking_lot = "*"
rayon = "*"

[dev-dependencies]
xorshift = "*"
