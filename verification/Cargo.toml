[package]
name = "hopper"
version = "0.4.0"
edition = "2021"
publish = false

[dependencies]
bincode = "=1.3.3"
byteorder = "=1.5.0"
flate2 = "=1.1.10"
memmap = "=0.7.0"
parking_lot = "=0.12.5"
serde = "=1.0.229"
tempdir = "=0.3.7"

[dev-dependencies]
quickcheck = { version = "0.6", default-features = false }
