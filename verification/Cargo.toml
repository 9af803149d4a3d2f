[package]
name = "cquic"
version = "0.1.0"
edition = "2021"
publish = false

[dependencies]
bitcode = "0.6"
bytes = "1"
compio = { version = "*", features = ["net", "runtime", "time"] }
crossfire = "*"
fastrand = "2"
log = "0.4"
parking_lot = "0.12"
thiserror = "2"
