[package]
name = "cabarrus"
version = "0.1.0"
edition = "2021"
publish = false

[dependencies]
byteorder = "=1.5.0"
clap = "=4.6.7"
env_logger = "=0.11.11"
farmhash = "=1.1.5"
hash_hasher = "=2.0.4"
log = "=0.4.34"
memmap = "=0.7.0"
ndarray = "=0.16.1"
ndarray-rand = "=0.15.0"
rand = "=0.8.8"
rayon = "=1.12.0"
unicode-segmentation = "=1.13.3"

[dev-dependencies]
nom = "=2.2.1"
regex = "=1.13.1"
