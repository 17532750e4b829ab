[package]
name = "thinp_pack"
version = "0.1.0"
edition = "2021"
publish = false

[dependencies]
byteorder = "1"
clap = "2"
crc32c = "0.6"
flate2 = "1"
libc = "0.2"
num_cpus = "1"
rand = "0.8"
