[package]
name = "zarr3"
version = "0.1.0"
edition = "2021"
publish = false

[dependencies]
blosc = "*"
byteorder = "1"
bytes = "1"
crc32c = "0.6"
flate2 = "1"
fs4 = "0.6"
httparse = "1"
log = "0.4"
ndarray = "0.15"
num-complex = { version = "0.4", features = ["serde"] }
reqwest = { version = "0.11", default-features = false, features = ["blocking"] }
serde = { version = "1", features = ["derive"] }
serde_json = "1"
smallvec = { version = "1", features = ["serde"] }
thiserror = "1"
walkdir = "2"
